//! Diffs for edit previews and turn summaries.
//!
//! The differences themselves come from the `similar` crate. What is shown of
//! them, and what is counted, is decided here on the list of changes.
use crate::styled::{
    append_lines,
    line,
    line_views,
    raw,
    span,
    span_views,
    Color,
    Line,
    LineView,
    Span,
    SpanView,
    Style,
};
use crate::text::{chars_of, decimal, decimal_of, pad_left, push_decimal, push_padded_left, push_text, slice_of};
use crate::theme::Palette;
use vstd::prelude::*;
use vstd::string::*;
use vstd::utf8::*;

verus! {

/// What became of a piece of text.
#[derive(Debug, Clone, Copy, PartialEq, Eq, Structural)]
pub enum ChangeTag {
    Equal,
    Delete,
    Insert,
}

/// One piece of text in a diff, with its position on either side.
#[derive(Debug, PartialEq, Eq)]
pub struct Change {
    pub tag: ChangeTag,
    pub old_index: Option<usize>,
    pub new_index: Option<usize>,
    pub value: String,
}

/// What a change holds.
#[verifier::ext_equal]
pub struct ChangeView {
    pub tag: ChangeTag,
    pub old_index: Option<usize>,
    pub new_index: Option<usize>,
    pub value: Seq<char>,
}

impl View for Change {
    type V = ChangeView;

    open spec fn view(&self) -> ChangeView {
        ChangeView {
            tag: self.tag,
            old_index: self.old_index,
            new_index: self.new_index,
            value: self.value@,
        }
    }
}

/// What some changes hold.
pub open spec fn change_views(changes: Seq<Change>) -> Seq<ChangeView> {
    changes.map_values(|c: Change| c@)
}

/// The pieces that do not have the tag `without`, one after another.
pub open spec fn side(changes: Seq<ChangeView>, without: ChangeTag) -> Seq<char>
    decreases changes.len(),
{
    if changes.len() == 0 {
        Seq::empty()
    } else {
        let before = side(changes.drop_last(), without);
        if changes.last().tag == without {
            before
        } else {
            before + changes.last().value
        }
    }
}

/// The changes leave out nothing of either text.
pub open spec fn covers(changes: Seq<ChangeView>, old: Seq<char>, new: Seq<char>) -> bool {
    side(changes, ChangeTag::Insert) == old && side(changes, ChangeTag::Delete) == new
}

/// The differences between two texts line by line.
pub uninterp spec fn line_diff(old: Seq<char>, new: Seq<char>) -> Seq<ChangeView>;

/// The differences between two texts word by word.
pub uninterp spec fn word_diff(old: Seq<char>, new: Seq<char>) -> Seq<ChangeView>;

/// The text of some bytes, with a replacement character for what is not UTF-8.
pub uninterp spec fn lossy(bytes: Seq<u8>) -> Seq<char>;

/// `TextDiff::from_lines` of `similar`, flattened by `iter_all_changes`. Named
/// by its arguments. Its pieces in order spell the old text without the
/// insertions and the new text without the deletions, and an index counts
/// pieces that are not empty.
#[verifier::external_body]
fn line_changes(old: &str, new: &str) -> (r: Vec<Change>)
    ensures
        change_views(r@) == line_diff(old@, new@),
        covers(change_views(r@), old@, new@),
        forall|i: int|
            0 <= i < r@.len() ==> ((#[trigger] r@[i]).old_index matches Some(n) ==> n < old@.len())
                && (r@[i].new_index matches Some(n) ==> n < new@.len()),
{
    similar::TextDiff::from_lines(old, new).iter_all_changes().map(
        |c| Change {
            tag: match c.tag() {
                similar::ChangeTag::Equal => ChangeTag::Equal,
                similar::ChangeTag::Delete => ChangeTag::Delete,
                similar::ChangeTag::Insert => ChangeTag::Insert,
            },
            old_index: c.old_index(),
            new_index: c.new_index(),
            value: c.value().to_string(),
        },
    ).collect()
}

/// `TextDiff::from_unicode_words` of `similar`, flattened by
/// `iter_all_changes`. Named by its arguments. Its pieces in order spell the
/// old text without the insertions and the new text without the deletions.
#[verifier::external_body]
fn word_changes(old: &str, new: &str) -> (r: Vec<Change>)
    ensures
        change_views(r@) == word_diff(old@, new@),
        covers(change_views(r@), old@, new@),
{
    similar::TextDiff::from_unicode_words(old, new).iter_all_changes().map(
        |c| Change {
            tag: match c.tag() {
                similar::ChangeTag::Equal => ChangeTag::Equal,
                similar::ChangeTag::Delete => ChangeTag::Delete,
                similar::ChangeTag::Insert => ChangeTag::Insert,
            },
            old_index: c.old_index(),
            new_index: c.new_index(),
            value: c.value().to_string(),
        },
    ).collect()
}

/// `String::from_utf8_lossy`. Named by its argument; on valid UTF-8 it is the
/// decoded text.
#[verifier::external_body]
fn lossy_text(bytes: &[u8]) -> (s: String)
    ensures
        s@ == lossy(bytes@),
        valid_utf8(bytes@) ==> s@ == decode_utf8(bytes@),
{
    String::from_utf8_lossy(bytes).into_owned()
}

/// Lines added and removed.
#[derive(Debug, Clone, Copy, PartialEq, Eq, Structural)]
pub struct DiffStats {
    pub added: usize,
    pub removed: usize,
}

impl Default for DiffStats {
    fn default() -> (s: Self)
        ensures
            s == (DiffStats { added: 0, removed: 0 }),
    {
        DiffStats { added: 0, removed: 0 }
    }
}

/// How many of the changes have the tag.
pub open spec fn tagged(changes: Seq<ChangeView>, tag: ChangeTag) -> nat
    decreases changes.len(),
{
    if changes.len() == 0 {
        0
    } else {
        tagged(changes.drop_last(), tag) + (if changes.last().tag == tag {
            1nat
        } else {
            0nat
        })
    }
}

/// How a word of the diff looks: deleted words are struck in red, inserted ones
/// bold in green.
pub open spec fn word_span(c: ChangeView, p: Palette) -> SpanView {
    match c.tag {
        ChangeTag::Delete => span(
            c.value,
            Style { crossed_out: true, ..p.painted(Color::Red) },
        ),
        ChangeTag::Insert => span(c.value, Style { bold: true, ..p.painted(Color::Green) }),
        ChangeTag::Equal => raw(c.value),
    }
}

/// One line with a span for each change.
pub open spec fn word_line(changes: Seq<ChangeView>, p: Palette) -> LineView {
    line(changes.map_values(|c: ChangeView| word_span(c, p)))
}

/// One line with a span for each change.
pub fn render_words(changes: &[Change], p: Palette) -> (l: Line)
    ensures
        l@ == word_line(change_views(changes@), p),
{
    let ghost cs = change_views(changes@);
    let mut spans: Vec<Span> = Vec::new();
    let mut i: usize = 0;
    while i < changes.len()
        invariant
            i <= changes@.len(),
            cs == change_views(changes@),
            span_views(spans@) =~= cs.take(i as int).map_values(|c: ChangeView| word_span(c, p)),
        decreases changes@.len() - i,
    {
        let ghost before = span_views(spans@);
        let value: &str = changes[i].value.as_str();
        let sp: Span = match changes[i].tag {
            ChangeTag::Delete => Span::styled(value, p.semantic(Color::Red).crossed_out()),
            ChangeTag::Insert => Span::styled(value, p.semantic(Color::Green).bold()),
            ChangeTag::Equal => Span::raw(value),
        };
        let ghost sv = sp@;
        assert(sv == word_span(cs[i as int], p));
        spans.push(sp);
        i += 1;
        assert(span_views(spans@) =~= before.push(sv));
        assert(cs.take(i as int).map_values(|c: ChangeView| word_span(c, p)) =~= cs.take(
            i - 1,
        ).map_values(|c: ChangeView| word_span(c, p)).push(sv));
    }
    assert(cs.take(i as int) =~= cs);
    Line::new(spans)
}

/// One styled line for the change from `old` to `new`, word by word.
pub fn word_diff_line(old: &str, new: &str, p: Palette) -> (l: Line)
    ensures
        l@ == word_line(word_diff(old@, new@), p),
        covers(word_diff(old@, new@), old@, new@),
{
    let changes: Vec<Change> = word_changes(old, new);
    render_words(changes.as_slice(), p)
}

/// The text without line ends at its end.
pub open spec fn without_line_end(s: Seq<char>) -> Seq<char>
    decreases s.len(),
{
    if s.len() > 0 && (s.last() == '\r' || s.last() == '\n') {
        without_line_end(s.drop_last())
    } else {
        s
    }
}

fn trim_line_end(v: &[char]) -> (out: Vec<char>)
    ensures
        out@ == without_line_end(v@),
{
    let mut n: usize = v.len();
    assert(v@.take(n as int) =~= v@);
    while n > 0 && (v[n - 1] == '\r' || v[n - 1] == '\n')
        invariant
            n <= v@.len(),
            without_line_end(v@) == without_line_end(v@.take(n as int)),
        decreases n,
    {
        assert(v@.take(n as int).drop_last() =~= v@.take(n - 1));
        n -= 1;
    }
    assert(v@.subrange(0, n as int) =~= v@.take(n as int));
    slice_of(v, 0, n)
}

/// The number of a line, counted from one and set in three places.
pub open spec fn line_number(index: Option<usize>) -> Seq<char> {
    match index {
        Some(n) => pad_left(decimal((n + 1) as nat), 3),
        None => seq![' ', ' ', ' '],
    }
}

/// The row of a changed line: a gutter of two cells, then marker, number and
/// text on a red or green ground.
pub open spec fn changed_row(c: ChangeView, p: Palette) -> LineView {
    let (marker, index, style) = if c.tag == ChangeTag::Delete {
        ('-', c.old_index, p.highlighted(Color::Red))
    } else {
        ('+', c.new_index, p.highlighted(Color::Green))
    };
    line(
        seq![
            raw("  "@),
            span(seq![marker] + line_number(index) + " \u{2502} "@, style),
            span(without_line_end(c.value).push(' '), style),
        ],
    )
}

/// The rows of the changed lines among the first `n`.
pub open spec fn changed_rows(changes: Seq<ChangeView>, p: Palette, n: nat) -> Seq<LineView>
    decreases n,
{
    if n == 0 {
        Seq::empty()
    } else {
        let before = changed_rows(changes, p, (n - 1) as nat);
        let c = changes[n - 1];
        if c.tag == ChangeTag::Equal {
            before
        } else {
            before.push(changed_row(c, p))
        }
    }
}

/// The heading of a file's changes: its path and how many lines came and went.
pub open spec fn file_heading(path: Seq<char>, stats: DiffStats, p: Palette) -> LineView {
    line(
        seq![
            span("  \u{293f} "@, p.chrome()),
            span(path, p.accent()),
            span("  "@, p.chrome()),
            span(seq!['+'] + decimal(stats.added as nat), p.painted(Color::Green)),
            span(" "@, p.chrome()),
            span(seq!['-'] + decimal(stats.removed as nat), p.painted(Color::Red)),
        ],
    )
}

/// What is counted of the changes.
pub open spec fn stats_of(changes: Seq<ChangeView>) -> DiffStats {
    DiffStats {
        added: tagged(changes, ChangeTag::Insert) as usize,
        removed: tagged(changes, ChangeTag::Delete) as usize,
    }
}

/// The heading and the rows of the changed lines.
pub open spec fn file_lines(path: Seq<char>, changes: Seq<ChangeView>, p: Palette) -> Seq<LineView> {
    seq![file_heading(path, stats_of(changes), p)] + changed_rows(changes, p, changes.len())
}

/// No index of a change is the largest number there is.
pub open spec fn numbered(changes: Seq<ChangeView>) -> bool {
    forall|i: int|
        0 <= i < changes.len() ==> (#[trigger] changes[i]).old_index != Some(usize::MAX)
            && changes[i].new_index != Some(usize::MAX)
}

/// Tags are counted no further than there are changes.
proof fn lemma_tagged(changes: Seq<ChangeView>, n: int)
    requires
        0 <= n < changes.len(),
    ensures
        tagged(changes.take(n + 1), ChangeTag::Insert) == tagged(changes.take(n), ChangeTag::Insert)
            + (if changes[n].tag == ChangeTag::Insert { 1nat } else { 0nat }),
        tagged(changes.take(n + 1), ChangeTag::Delete) == tagged(changes.take(n), ChangeTag::Delete)
            + (if changes[n].tag == ChangeTag::Delete { 1nat } else { 0nat }),
{
    assert(changes.take(n + 1).drop_last() =~= changes.take(n));
}

/// Count the changes.
pub fn count_changes(changes: &[Change]) -> (stats: DiffStats)
    ensures
        stats == stats_of(change_views(changes@)),
        stats.added as nat == tagged(change_views(changes@), ChangeTag::Insert),
        stats.removed as nat == tagged(change_views(changes@), ChangeTag::Delete),
{
    let ghost cs = change_views(changes@);
    let mut added: usize = 0;
    let mut removed: usize = 0;
    let mut i: usize = 0;
    assert(cs.take(0) =~= Seq::<ChangeView>::empty());
    while i < changes.len()
        invariant
            i <= changes@.len(),
            cs == change_views(changes@),
            added <= i,
            removed <= i,
            added == tagged(cs.take(i as int), ChangeTag::Insert),
            removed == tagged(cs.take(i as int), ChangeTag::Delete),
        decreases changes@.len() - i,
    {
        proof {
            lemma_tagged(cs, i as int);
        }
        match changes[i].tag {
            ChangeTag::Delete => removed = removed + 1,
            ChangeTag::Insert => added = added + 1,
            ChangeTag::Equal => {},
        }
        i += 1;
    }
    assert(cs.take(i as int) =~= cs);
    DiffStats { added, removed }
}

/// The row of a changed line.
fn changed_line(c: &Change, p: Palette) -> (l: Line)
    requires
        c.old_index != Some(usize::MAX),
        c.new_index != Some(usize::MAX),
    ensures
        l@ == changed_row(c@, p),
{
    let deleted: bool = match c.tag {
        ChangeTag::Delete => true,
        _ => false,
    };
    let style: Style = if deleted {
        p.diff_highlight(Color::Red)
    } else {
        p.diff_highlight(Color::Green)
    };
    let index: Option<usize> = if deleted {
        c.old_index
    } else {
        c.new_index
    };
    let mut head: Vec<char> = Vec::new();
    head.push(if deleted {
        '-'
    } else {
        '+'
    });
    match index {
        Some(n) => {
            let digits: Vec<char> = decimal_of(n as u64 + 1);
            push_padded_left(&mut head, digits.as_slice(), 3);
        },
        None => {
            head.push(' ');
            head.push(' ');
            head.push(' ');
        },
    }
    push_text(&mut head, " \u{2502} ");
    let value: Vec<char> = chars_of(c.value.as_str());
    let mut body: Vec<char> = trim_line_end(value.as_slice());
    body.push(' ');
    let mut spans: Vec<Span> = Vec::new();
    spans.push(Span::raw("  "));
    spans.push(Span::of(head.as_slice(), style));
    spans.push(Span::of(body.as_slice(), style));
    let l = Line::new(spans);
    proof {
        let marker = if deleted { '-' } else { '+' };
        assert(head@ =~= seq![marker] + line_number(index) + " \u{2502} "@);
        assert(l@.spans =~= changed_row(c@, p).spans);
    }
    l
}

/// The heading and the rows of the changed lines, and their counts.
pub fn render_file(path: &str, changes: &[Change], p: Palette) -> (r: (Vec<Line>, DiffStats))
    requires
        numbered(change_views(changes@)),
    ensures
        line_views(r.0@) == file_lines(path@, change_views(changes@), p),
        r.1 == stats_of(change_views(changes@)),
{
    let ghost cs = change_views(changes@);
    let stats: DiffStats = count_changes(changes);
    let mut body: Vec<Line> = Vec::new();
    let mut i: usize = 0;
    assert(line_views(body@) =~= changed_rows(cs, p, 0));
    while i < changes.len()
        invariant
            i <= changes@.len(),
            cs == change_views(changes@),
            numbered(cs),
            line_views(body@) == changed_rows(cs, p, i as nat),
        decreases changes@.len() - i,
    {
        assert(cs[i as int] == changes@[i as int]@);
        let ghost before = line_views(body@);
        match changes[i].tag {
            ChangeTag::Equal => {},
            _ => {
                let row: Line = changed_line(&changes[i], p);
                let ghost rv = row@;
                body.push(row);
                assert(line_views(body@) =~= before.push(rv));
            },
        }
        i += 1;
    }
    let mut added: Vec<char> = Vec::new();
    added.push('+');
    push_decimal(&mut added, stats.added as u64);
    let mut removed: Vec<char> = Vec::new();
    removed.push('-');
    push_decimal(&mut removed, stats.removed as u64);
    let mut spans: Vec<Span> = Vec::new();
    spans.push(Span::styled("  \u{293f} ", p.chrome()));
    spans.push(Span::styled(path, p.accent()));
    spans.push(Span::styled("  ", p.chrome()));
    spans.push(Span::of(added.as_slice(), p.semantic(Color::Green)));
    spans.push(Span::styled(" ", p.chrome()));
    spans.push(Span::of(removed.as_slice(), p.semantic(Color::Red)));
    let head: Line = Line::new(spans);
    assert(added@ =~= seq!['+'] + decimal(stats.added as nat));
    assert(removed@ =~= seq!['-'] + decimal(stats.removed as nat));
    assert(head@ =~= file_heading(path@, stats, p));
    let mut lines: Vec<Line> = Vec::new();
    lines.push(head);
    assert(line_views(lines@) =~= seq![file_heading(path@, stats, p)]);
    append_lines(&mut lines, body);
    (lines, stats)
}

/// The text of some bytes, nothing where there are none.
pub open spec fn text_or_empty(bytes: Option<&[u8]>) -> Seq<char> {
    match bytes {
        Some(b) => lossy(b@),
        None => Seq::empty(),
    }
}

fn text_of_bytes(bytes: Option<&[u8]>) -> (s: String)
    ensures
        s@ == text_or_empty(bytes),
{
    match bytes {
        Some(b) => lossy_text(b),
        None => String::new(),
    }
}

/// The changed lines of one file, before and after, and how many there are.
/// Lines that stay are left out.
pub fn file_diff_lines(path: &str, before: Option<&[u8]>, after: Option<&[u8]>, p: Palette) -> (r: (
    Vec<Line>,
    DiffStats,
))
    ensures
        line_views(r.0@) == file_lines(
            path@,
            line_diff(text_or_empty(before), text_or_empty(after)),
            p,
        ),
        r.1 == stats_of(line_diff(text_or_empty(before), text_or_empty(after))),
        covers(
            line_diff(text_or_empty(before), text_or_empty(after)),
            text_or_empty(before),
            text_or_empty(after),
        ),
{
    let old: String = text_of_bytes(before);
    let new: String = text_of_bytes(after);
    let bound_old: usize = old.as_str().unicode_len();
    let bound_new: usize = new.as_str().unicode_len();
    let changes: Vec<Change> = line_changes(old.as_str(), new.as_str());
    proof {
        let cs = change_views(changes@);
        assert forall|i: int| 0 <= i < cs.len() implies (#[trigger] cs[i]).old_index != Some(usize::MAX)
            && cs[i].new_index != Some(usize::MAX) by {
            assert(cs[i] == changes@[i]@);
        }
    }
    render_file(path, changes.as_slice(), p)
}

/// How many lines were added to and removed from a file.
pub fn line_stats(before: Option<&[u8]>, after: Option<&[u8]>) -> (stats: DiffStats)
    ensures
        stats == stats_of(line_diff(text_or_empty(before), text_or_empty(after))),
{
    let old: String = text_of_bytes(before);
    let new: String = text_of_bytes(after);
    let changes: Vec<Change> = line_changes(old.as_str(), new.as_str());
    count_changes(changes.as_slice())
}

/// The row of spans of a word diff spells both texts: without the inserted
/// words the old one, without the deleted words the new one.
pub proof fn word_line_spells_both_texts(
    changes: Seq<ChangeView>,
    old: Seq<char>,
    new: Seq<char>,
    p: Palette,
)
    requires
        covers(changes, old, new),
    ensures
        word_line(changes, p).spans.len() == changes.len(),
        forall|i: int|
            0 <= i < changes.len() ==> (#[trigger] word_line(changes, p).spans[i]).content
                == changes[i].value,
        side(changes, ChangeTag::Insert) == old,
        side(changes, ChangeTag::Delete) == new,
{
}

} // verus!
