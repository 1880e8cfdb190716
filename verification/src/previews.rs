//! What the rows of a diff say and how they look, and what the palette paints.
use crate::diff::{
    changed_row,
    changed_rows,
    file_lines,
    stats_of,
    tagged,
    without_line_end,
    word_span,
    ChangeTag,
    ChangeView,
};
use crate::styled::{Color, LineView, Paint, Style};
use crate::text::{decimal, pad_left};
use crate::theme::Palette;
use vstd::prelude::*;
use vstd::string::*;

verus! {

// ---- rows -------------------------------------------------------------------
/// The line number `n` set in three places, spaces in front of it.
pub open spec fn in_three_places(n: nat) -> Seq<char> {
    Seq::new(
        if decimal(n).len() < 3 {
            (3 - decimal(n).len()) as nat
        } else {
            0
        },
        |i: int| ' ',
    ) + decimal(n)
}

/// The row of a removed line: behind a gutter of two spaces a minus, the number
/// the line had, counted from one and set in three places, a bar, and the line on
/// a red ground.
pub proof fn a_removed_line_has_a_minus_and_its_old_number(c: ChangeView, p: Palette, n: usize)
    requires
        c.tag == ChangeTag::Delete,
        c.old_index == Some(n),
    ensures
        ({
            let row = changed_row(c, p);
            &&& row.spans.len() == 3
            &&& row.spans[0].content == "  "@
            &&& row.spans[1].content == seq!['-'] + in_three_places((n + 1) as nat) + " │ "@
            &&& row.spans[2].content == without_line_end(c.value).push(' ')
            &&& row.spans[1].style == row.spans[2].style
            &&& !p.no_color ==> row.spans[1].style.bg == Paint::Solid(Color::Rgb(67, 30, 32))
                && row.spans[1].style.fg == Paint::Inherit
            &&& p.no_color ==> row.spans[1].style.reversed && row.spans[1].style.bg
                == Paint::Inherit
        }),
{
    let d = decimal((n + 1) as nat);
    assert(pad_left(d, 3) =~= in_three_places((n + 1) as nat));
}

/// The row of an added line: a plus, the number the line has now, and the line on
/// a green ground.
pub proof fn an_added_line_has_a_plus_and_its_new_number(c: ChangeView, p: Palette, n: usize)
    requires
        c.tag == ChangeTag::Insert,
        c.new_index == Some(n),
    ensures
        ({
            let row = changed_row(c, p);
            &&& row.spans.len() == 3
            &&& row.spans[0].content == "  "@
            &&& row.spans[1].content == seq!['+'] + in_three_places((n + 1) as nat) + " │ "@
            &&& row.spans[2].content == without_line_end(c.value).push(' ')
            &&& row.spans[1].style == row.spans[2].style
            &&& !p.no_color ==> row.spans[1].style.bg == Paint::Solid(Color::Rgb(28, 57, 39))
                && row.spans[1].style.fg == Paint::Inherit
            &&& p.no_color ==> row.spans[1].style.reversed && row.spans[1].style.bg
                == Paint::Inherit
        }),
{
    let d = decimal((n + 1) as nat);
    assert(pad_left(d, 3) =~= in_three_places((n + 1) as nat));
}

/// A line ends where its line end starts.
pub proof fn line_ends_are_left_out(t: Seq<char>)
    requires
        t.len() == 0 || (t.last() != '\n' && t.last() != '\r'),
    ensures
        without_line_end(t) == t,
        without_line_end(t.push('\n')) == t,
        without_line_end(t.push('\r').push('\n')) == t,
{
    assert(t.push('\n').drop_last() =~= t);
    assert(t.push('\r').drop_last() =~= t);
    assert(t.push('\r').push('\n').drop_last() =~= t.push('\r'));
    assert(without_line_end(t.push('\r')) == without_line_end(t));
}

/// The texts of the rows with a marker, in order.
pub open spec fn marked(rows: Seq<LineView>, marker: char) -> Seq<Seq<char>>
    decreases rows.len(),
{
    if rows.len() == 0 {
        Seq::empty()
    } else {
        let before = marked(rows.drop_last(), marker);
        let row = rows.last();
        if row.spans[1].content[0] == marker {
            before.push(row.spans[2].content.drop_last())
        } else {
            before
        }
    }
}

/// The lines with a tag, in order, without their line ends.
pub open spec fn lines_tagged(changes: Seq<ChangeView>, tag: ChangeTag) -> Seq<Seq<char>>
    decreases changes.len(),
{
    if changes.len() == 0 {
        Seq::empty()
    } else {
        let before = lines_tagged(changes.drop_last(), tag);
        if changes.last().tag == tag {
            before.push(without_line_end(changes.last().value))
        } else {
            before
        }
    }
}

proof fn lemma_rows(changes: Seq<ChangeView>, p: Palette, n: nat)
    requires
        n <= changes.len(),
    ensures
        marked(changed_rows(changes, p, n), '-') == lines_tagged(
            changes.take(n as int),
            ChangeTag::Delete,
        ),
        marked(changed_rows(changes, p, n), '+') == lines_tagged(
            changes.take(n as int),
            ChangeTag::Insert,
        ),
        lines_tagged(changes.take(n as int), ChangeTag::Delete).len() == tagged(
            changes.take(n as int),
            ChangeTag::Delete,
        ),
        lines_tagged(changes.take(n as int), ChangeTag::Insert).len() == tagged(
            changes.take(n as int),
            ChangeTag::Insert,
        ),
        tagged(changes.take(n as int), ChangeTag::Delete) <= n,
        tagged(changes.take(n as int), ChangeTag::Insert) <= n,
        changed_rows(changes, p, n).len() == tagged(changes.take(n as int), ChangeTag::Delete)
            + tagged(changes.take(n as int), ChangeTag::Insert),
    decreases n,
{
    if n > 0 {
        let m = (n - 1) as nat;
        lemma_rows(changes, p, m);
        assert(changes.take(n as int).drop_last() =~= changes.take(m as int));
        let c = changes[n - 1];
        let before = changed_rows(changes, p, m);
        if c.tag != ChangeTag::Equal {
            let row = changed_row(c, p);
            assert(before.push(row).drop_last() =~= before);
            let t = without_line_end(c.value);
            assert(t.push(' ').drop_last() =~= t);
        }
    }
}

/// The rows of a file's changes: under the heading, those with a minus spell in
/// order the lines that only the old text has, those with a plus the lines that
/// only the new text has, and there are no others. What is counted is how many
/// there are of each.
pub proof fn the_rows_are_the_lines_that_changed(
    path: Seq<char>,
    changes: Seq<ChangeView>,
    p: Palette,
)
    requires
        changes.len() <= usize::MAX,
    ensures
        ({
            let rows = file_lines(path, changes, p).skip(1);
            &&& file_lines(path, changes, p).len() == 1 + marked(rows, '-').len() + marked(
                rows,
                '+',
            ).len()
            &&& marked(rows, '-') == lines_tagged(changes, ChangeTag::Delete)
            &&& marked(rows, '+') == lines_tagged(changes, ChangeTag::Insert)
            &&& stats_of(changes).removed == marked(rows, '-').len()
            &&& stats_of(changes).added == marked(rows, '+').len()
        }),
{
    lemma_rows(changes, p, changes.len());
    assert(changes.take(changes.len() as int) =~= changes);
    assert(file_lines(path, changes, p).skip(1) =~= changed_rows(changes, p, changes.len()));
}

/// The heading names the file and says how many lines came, in green with a plus,
/// and how many went, in red with a minus.
pub proof fn the_heading_counts_what_changed(path: Seq<char>, changes: Seq<ChangeView>, p: Palette)
    ensures
        ({
            let h = file_lines(path, changes, p)[0];
            let stats = stats_of(changes);
            &&& h.spans.len() == 6
            &&& h.spans[1].content == path
            &&& h.spans[3].content == seq!['+'] + decimal(stats.added as nat)
            &&& h.spans[5].content == seq!['-'] + decimal(stats.removed as nat)
            &&& !p.no_color ==> h.spans[3].style.fg == Paint::Solid(Color::Green)
                && h.spans[5].style.fg == Paint::Solid(Color::Red)
        }),
{
}

/// How words of a diff look: one that went is struck out, in red; one that came
/// is bold, in green; one that stayed is plain.
pub proof fn words_show_what_became_of_them(c: ChangeView, p: Palette)
    ensures
        word_span(c, p).content == c.value,
        c.tag == ChangeTag::Delete ==> word_span(c, p).style.crossed_out && !word_span(
            c,
            p,
        ).style.bold && (!p.no_color ==> word_span(c, p).style.fg == Paint::Solid(Color::Red)),
        c.tag == ChangeTag::Insert ==> word_span(c, p).style.bold && !word_span(
            c,
            p,
        ).style.crossed_out && (!p.no_color ==> word_span(c, p).style.fg == Paint::Solid(
            Color::Green,
        )),
        c.tag == ChangeTag::Equal ==> word_span(c, p).style.fg == Paint::Inherit && !word_span(
            c,
            p,
        ).style.bold && !word_span(c, p).style.crossed_out,
{
}

// ---- the palette ------------------------------------------------------------
/// A style without any colour.
pub open spec fn colourless(s: Style) -> bool {
    s.fg == Paint::Inherit && s.bg == Paint::Inherit
}

/// Where colour is off, nothing the palette gives has any, and what colour told
/// apart is told apart by other means.
pub proof fn no_color_means_no_colour(p: Palette, c: Color)
    requires
        p.no_color,
    ensures
        colourless(p.accent()),
        colourless(p.accent_dim()),
        colourless(p.chrome()),
        colourless(p.code()),
        colourless(p.body()),
        colourless(p.user_prompt()),
        colourless(p.link()),
        colourless(p.reasoning()),
        colourless(p.painted(c)),
        colourless(p.highlighted(c)),
        p.link().underlined,
        p.reasoning().italic,
        p.user_prompt().reversed,
        p.highlighted(c).reversed,
{
}

/// The colours of the palette.
pub proof fn what_the_palette_paints(p: Palette, c: Color)
    requires
        !p.no_color,
    ensures
        p.accent().fg == Paint::Solid(Color::Rgb(255, 92, 39)),
        p.chrome().fg == Paint::Solid(Color::DarkGray),
        p.code().fg == Paint::Solid(Color::Cyan),
        p.link().fg == Paint::Solid(Color::Cyan),
        p.link().underlined,
        p.reasoning().fg == Paint::Solid(Color::DarkGray),
        p.reasoning().italic,
        colourless(p.body()),
        p.user_prompt().fg == Paint::Solid(Color::White),
        p.user_prompt().bg == Paint::Solid(Color::DarkGray),
        p.painted(c).fg == Paint::Solid(c),
        p.painted(c).bg == Paint::Inherit,
{
}

/// Colour is off just where `NO_COLOR` is set to something.
pub proof fn no_color_counts_where_it_is_set(value: Seq<char>)
    ensures
        crate::theme::palette_for(None).no_color == false,
        crate::theme::palette_for(Some(value)).no_color <==> value.len() > 0,
{
}

} // verus!
