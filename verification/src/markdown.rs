//! Minimal markdown to styled lines.
//!
//! A pragmatic subset for assistant output: headings, fenced code, quotes,
//! lists, tables, rules, and inline code, strong, emphasis, strikethrough and
//! links. Block parsing goes line by line with the fence as its only state;
//! inline parsing is one scan. Nested emphasis is flattened to the outer style,
//! and what is not closed stays as it was typed.
use crate::styled::{
    append_lines,
    append_spans,
    blank_line,
    line,
    line_views,
    plain_style,
    raw,
    span,
    span_views,
    styled_line,
    Line,
    LineView,
    Span,
    SpanView,
    Style,
};
use crate::text::{
    chars_of,
    digit,
    find,
    find_of,
    holds,
    is_white,
    lemma_find_from,
    matches_at,
    push_repeat,
    repeat,
    run,
    run_of,
    slice_of,
    split,
    split_of,
    stands_at,
    texts,
    trim,
    trim_of,
    trim_start,
    trim_start_of,
    white,
};
use crate::theme::Palette;
use vstd::prelude::*;
use vstd::slice::slice_subrange;
use vstd::string::*;

verus! {

/// Headings carry the accent; deeper levels fade to chrome.
pub open spec fn heading_look(level: nat, p: Palette) -> Style {
    let base = if level == 1 || level == 2 {
        p.accent()
    } else if level == 3 {
        p.accent_dim()
    } else {
        p.chrome()
    };
    Style { bold: true, ..base }
}

fn heading_style(level: usize, p: Palette) -> (s: Style)
    ensures
        s == heading_look(level as nat, p),
{
    let base: Style = if level == 1 || level == 2 {
        p.accent()
    } else if level == 3 {
        p.accent_dim()
    } else {
        p.chrome()
    };
    base.bold()
}

// ---- inline -----------------------------------------------------------------

/// The first position at or after `i` of a run of exactly `n` backticks.
pub open spec fn backticks_from(s: Seq<char>, n: nat, i: int) -> Option<int>
    decreases s.len() - i,
{
    if i < 0 || i >= s.len() {
        None
    } else if s[i] == '`' {
        let r = run(s.skip(i), '`');
        if r == n {
            Some(i)
        } else {
            proof {
                lemma_run_bound(s.skip(i), '`');
            }
            backticks_from(s, n, i + r)
        }
    } else {
        backticks_from(s, n, i + 1)
    }
}

/// A code span at the start: its content and how many characters it takes.
pub open spec fn code_span(s: Seq<char>) -> Option<(Seq<char>, int)> {
    let n = run(s, '`');
    if n == 0 {
        None
    } else {
        let after = s.skip(n as int);
        match backticks_from(after, n, 0) {
            Some(pos) => Some((after.take(pos), n + pos + n)),
            None => None,
        }
    }
}

/// A link at the start: its text and how many characters it takes.
pub open spec fn link(s: Seq<char>) -> Option<(Seq<char>, int)> {
    if s.len() == 0 || s[0] != '[' {
        None
    } else {
        match find(s, seq![']']) {
            None => None,
            Some(close) => {
                let after = s.skip(close + 1);
                if after.len() == 0 || after[0] != '(' {
                    None
                } else {
                    match find(after.skip(1), seq![')']) {
                        None => None,
                        Some(end) => Some((s.subrange(1, close), close + end + 3)),
                    }
                }
            },
        }
    }
}

/// Struck text at the start, between two pairs of tildes.
pub open spec fn strikethrough(s: Seq<char>) -> Option<(Seq<char>, int)> {
    if !stands_at(s, seq!['~', '~'], 0) || (s.len() > 2 && s[2] == '~') {
        None
    } else {
        match find(s.skip(2), seq!['~', '~']) {
            None => None,
            Some(closer) => Some((s.skip(2).take(closer), closer + 4)),
        }
    }
}

/// Strong text at the start, between two doubled markers.
pub open spec fn strong(s: Seq<char>, m: char) -> Option<(Seq<char>, int)> {
    if !stands_at(s, seq![m, m], 0) {
        None
    } else {
        match find(s.skip(2), seq![m, m]) {
            None => None,
            Some(closer) => Some((s.skip(2).take(closer), closer + 4)),
        }
    }
}

/// Emphasized text at the start, between two single markers.
pub open spec fn emphasis(s: Seq<char>, m: char) -> Option<(Seq<char>, int)> {
    if s.len() == 0 || s[0] != m || (s.len() > 1 && s[1] == m) {
        None
    } else {
        match find(s.skip(1), seq![m]) {
            None => None,
            Some(closer) => Some((s.skip(1).take(closer), closer + 2)),
        }
    }
}

/// The first construct that the text starts with: its span and its extent.
pub open spec fn construct(s: Seq<char>, p: Palette) -> Option<(SpanView, int)> {
    if let Some((c, n)) = code_span(s) {
        Some((span(c, p.code()), n))
    } else if let Some((c, n)) = link(s) {
        Some((span(c, p.link()), n))
    } else if let Some((c, n)) = strikethrough(s) {
        Some((span(c, Style { crossed_out: true, ..plain_style() }), n))
    } else if let Some((c, n)) = strong(s, '*') {
        Some((span(c, Style { bold: true, ..plain_style() }), n))
    } else if let Some((c, n)) = strong(s, '_') {
        Some((span(c, Style { bold: true, ..plain_style() }), n))
    } else if let Some((c, n)) = emphasis(s, '*') {
        Some((span(c, Style { italic: true, ..plain_style() }), n))
    } else if let Some((c, n)) = emphasis(s, '_') {
        Some((span(c, Style { italic: true, ..plain_style() }), n))
    } else {
        None
    }
}

/// The pending plain text as a span, if there is any.
pub open spec fn flushed(plain: Seq<char>) -> Seq<SpanView> {
    if plain.len() == 0 {
        Seq::empty()
    } else {
        seq![raw(plain)]
    }
}

/// The spans of inline markdown, `plain` being the plain text read before `s`.
pub open spec fn inline(s: Seq<char>, plain: Seq<char>, p: Palette) -> Seq<SpanView>
    decreases s.len(),
{
    if s.len() == 0 {
        flushed(plain)
    } else {
        match construct(s, p) {
            Some((sp, n)) => if 0 < n <= s.len() {
                flushed(plain).push(sp) + inline(s.skip(n), Seq::empty(), p)
            } else {
                flushed(plain).push(sp)
            },
            None => inline(s.skip(1), plain.push(s[0]), p),
        }
    }
}

/// A run is no longer than the text.
pub proof fn lemma_run_bound(s: Seq<char>, c: char)
    ensures
        run(s, c) <= s.len(),
        s.len() > 0 && s[0] == c ==> run(s, c) > 0,
    decreases s.len(),
{
    if s.len() > 0 && s[0] == c {
        lemma_run_bound(s.skip(1), c);
    }
}

fn find_backtick_run(v: &[char], n: usize) -> (r: Option<usize>)
    requires
        n > 0,
    ensures
        match r {
            Some(i) => backticks_from(v@, n as nat, 0) == Some(i as int) && i + n <= v@.len(),
            None => backticks_from(v@, n as nat, 0) is None,
        },
{
    let mut i: usize = 0;
    while i < v.len()
        invariant
            i <= v@.len(),
            n > 0,
            backticks_from(v@, n as nat, 0) == backticks_from(v@, n as nat, i as int),
        decreases v@.len() - i,
    {
        if v[i] == '`' {
            let run_here: usize = run_of(v, i, '`');
            proof {
                assert(v@.skip(i as int)[0] == '`');
                lemma_run_bound(v@.skip(i as int), '`');
            }
            if run_here == n {
                return Some(i);
            }
            i += run_here;
        } else {
            i += 1;
        }
    }
    None
}

fn take_code_span(rest: &[char]) -> (r: Option<(Vec<char>, usize)>)
    ensures
        match r {
            Some((c, n)) => code_span(rest@) == Some((c@, n as int)) && 0 < n <= rest@.len(),
            None => code_span(rest@) is None,
        },
{
    assert(rest@.skip(0) =~= rest@);
    let n: usize = run_of(rest, 0, '`');
    if n == 0 {
        return None;
    }
    let after: &[char] = slice_subrange(rest, n, rest.len());
    assert(after@ =~= rest@.skip(n as int));
    match find_backtick_run(after, n) {
        Some(pos) => {
            let content: Vec<char> = slice_of(after, 0, pos);
            assert(content@ =~= after@.take(pos as int));
            Some((content, n + pos + n))
        },
        None => None,
    }
}

fn take_link(rest: &[char]) -> (r: Option<(Vec<char>, usize)>)
    ensures
        match r {
            Some((c, n)) => link(rest@) == Some((c@, n as int)) && 0 < n <= rest@.len(),
            None => link(rest@) is None,
        },
{
    if rest.len() == 0 || rest[0] != '[' {
        return None;
    }
    let bracket: [char; 1] = [']'];
    assert(bracket@ =~= seq![']']);
    let close: usize = match find_of(rest, bracket.as_slice()) {
        Some(close) => close,
        None => {
            return None;
        },
    };
    proof {
        lemma_find_from(rest@, seq![']'], 0);
        assert(rest@.subrange(close as int, close + 1)[0] == ']');
    }
    let after: &[char] = slice_subrange(rest, close + 1, rest.len());
    assert(after@ =~= rest@.skip(close + 1));
    if after.len() == 0 || after[0] != '(' {
        return None;
    }
    let url: &[char] = slice_subrange(after, 1, after.len());
    assert(url@ =~= after@.skip(1));
    let paren: [char; 1] = [')'];
    assert(paren@ =~= seq![')']);
    match find_of(url, paren.as_slice()) {
        Some(end) => {
            proof {
                lemma_find_from(url@, seq![')'], 0);
            }
            let content: Vec<char> = slice_of(rest, 1, close);
            Some((content, close + end + 3))
        },
        None => None,
    }
}

fn take_strikethrough(rest: &[char]) -> (r: Option<(Vec<char>, usize)>)
    ensures
        match r {
            Some((c, n)) => strikethrough(rest@) == Some((c@, n as int)) && 0 < n <= rest@.len(),
            None => strikethrough(rest@) is None,
        },
{
    let m: [char; 2] = ['~', '~'];
    assert(m@ =~= seq!['~', '~']);
    if !matches_at(rest, m.as_slice(), 0) {
        return None;
    }
    if rest.len() > 2 && rest[2] == '~' {
        return None;
    }
    between(rest, m.as_slice())
}

/// The text up to the next marker `m`, `rest` starting with one.
fn between(rest: &[char], m: &[char]) -> (r: Option<(Vec<char>, usize)>)
    requires
        stands_at(rest@, m@, 0),
        0 < m@.len() <= 2,
    ensures
        match r {
            Some((c, n)) => find(rest@.skip(m@.len() as int), m@) == Some(n - 2 * m@.len()) && c@
                == rest@.skip(m@.len() as int).take(n - 2 * m@.len()) && 0 < n <= rest@.len(),
            None => find(rest@.skip(m@.len() as int), m@) is None,
        },
{
    let after: &[char] = slice_subrange(rest, m.len(), rest.len());
    assert(after@ =~= rest@.skip(m@.len() as int));
    match find_of(after, m) {
        Some(closer) => {
            proof {
                lemma_find_from(after@, m@, 0);
            }
            let content: Vec<char> = slice_of(after, 0, closer);
            assert(content@ =~= after@.take(closer as int));
            Some((content, m.len() + closer + m.len()))
        },
        None => None,
    }
}

fn take_strong(rest: &[char], m: char) -> (r: Option<(Vec<char>, usize)>)
    ensures
        match r {
            Some((c, n)) => strong(rest@, m) == Some((c@, n as int)) && 0 < n <= rest@.len(),
            None => strong(rest@, m) is None,
        },
{
    let mm: [char; 2] = [m, m];
    assert(mm@ =~= seq![m, m]);
    if !matches_at(rest, mm.as_slice(), 0) {
        return None;
    }
    between(rest, mm.as_slice())
}

fn take_emphasis(rest: &[char], m: char) -> (r: Option<(Vec<char>, usize)>)
    ensures
        match r {
            Some((c, n)) => emphasis(rest@, m) == Some((c@, n as int)) && 0 < n <= rest@.len(),
            None => emphasis(rest@, m) is None,
        },
{
    if rest.len() == 0 || rest[0] != m || (rest.len() > 1 && rest[1] == m) {
        return None;
    }
    let mm: [char; 1] = [m];
    assert(mm@ =~= seq![m]);
    assert(rest@.subrange(0, 1) =~= seq![m]);
    between(rest, mm.as_slice())
}

/// The first construct that the text starts with: its span and its extent.
fn take_construct(rest: &[char], p: Palette) -> (r: Option<(Span, usize)>)
    ensures
        match r {
            Some((sp, n)) => construct(rest@, p) == Some((sp@, n as int)) && 0 < n <= rest@.len(),
            None => construct(rest@, p) is None,
        },
{
    if let Some((c, n)) = take_code_span(rest) {
        return Some((Span::of(c.as_slice(), p.code()), n));
    }
    if let Some((c, n)) = take_link(rest) {
        return Some((Span::of(c.as_slice(), p.link()), n));
    }
    if let Some((c, n)) = take_strikethrough(rest) {
        return Some((Span::of(c.as_slice(), Style::plain().crossed_out()), n));
    }
    if let Some((c, n)) = take_strong(rest, '*') {
        return Some((Span::of(c.as_slice(), Style::plain().bold()), n));
    }
    if let Some((c, n)) = take_strong(rest, '_') {
        return Some((Span::of(c.as_slice(), Style::plain().bold()), n));
    }
    if let Some((c, n)) = take_emphasis(rest, '*') {
        return Some((Span::of(c.as_slice(), Style::plain().italic()), n));
    }
    if let Some((c, n)) = take_emphasis(rest, '_') {
        return Some((Span::of(c.as_slice(), Style::plain().italic()), n));
    }
    None
}

/// Put the pending plain text into a span.
fn flush_plain(spans: &mut Vec<Span>, plain: &Vec<char>)
    ensures
        span_views(final(spans)@) == span_views(old(spans)@) + flushed(plain@),
{
    let ghost before = spans@;
    if plain.len() > 0 {
        spans.push(Span::of(plain.as_slice(), Style::plain()));
    }
    assert(span_views(spans@) =~= span_views(before) + flushed(plain@));
}

/// The spans of inline markdown.
pub fn parse_inline(s: &str, p: Palette) -> (spans: Vec<Span>)
    ensures
        span_views(spans@) == inline(s@, Seq::empty(), p),
{
    let chars: Vec<char> = chars_of(s);
    inline_spans(chars.as_slice(), p)
}

/// The spans of inline markdown.
fn inline_spans(s: &[char], p: Palette) -> (spans: Vec<Span>)
    ensures
        span_views(spans@) == inline(s@, Seq::empty(), p),
{
    let mut spans: Vec<Span> = Vec::new();
    let mut plain: Vec<char> = Vec::new();
    let mut i: usize = 0;
    assert(s@.skip(0) =~= s@);
    assert(span_views(spans@) + inline(s@, Seq::empty(), p) =~= inline(s@, Seq::empty(), p));
    while i < s.len()
        invariant
            i <= s@.len(),
            span_views(spans@) + inline(s@.skip(i as int), plain@, p) == inline(
                s@,
                Seq::empty(),
                p,
            ),
        decreases s@.len() - i,
    {
        let rest: &[char] = slice_subrange(s, i, s.len());
        assert(rest@ =~= s@.skip(i as int));
        match take_construct(rest, p) {
            Some((sp, n)) => {
                let ghost before = span_views(spans@);
                let ghost text = plain@;
                flush_plain(&mut spans, &plain);
                let ghost mid = spans@;
                let ghost spv = sp@;
                spans.push(sp);
                plain = Vec::new();
                assert(rest@.skip(n as int) =~= s@.skip(i + n));
                assert(span_views(spans@) =~= span_views(mid).push(spv));
                assert(span_views(spans@) =~= before + flushed(text).push(spv));
                assert(plain@ =~= Seq::<char>::empty());
                let ghost tail = inline(s@.skip(i + n), Seq::empty(), p);
                assert(before + (flushed(text).push(spv) + tail) =~= (before + flushed(text).push(
                    spv,
                )) + tail);
                i += n;
            },
            None => {
                assert(rest@.skip(1) =~= s@.skip(i + 1));
                plain.push(rest[0]);
                i += 1;
            },
        }
    }
    assert(s@.skip(i as int).len() == 0);
    flush_plain(&mut spans, &plain);
    spans
}

// ---- blocks -----------------------------------------------------------------

/// The characters up to the first white space, white space before them passed over.
pub open spec fn first_word(s: Seq<char>) -> Seq<char> {
    word_prefix(trim_start(s))
}

/// The characters up to the first white space.
pub open spec fn word_prefix(s: Seq<char>) -> Seq<char>
    decreases s.len(),
{
    if s.len() == 0 || white(s[0]) {
        Seq::empty()
    } else {
        seq![s[0]] + word_prefix(s.skip(1))
    }
}

pub fn first_word_of(v: &[char]) -> (w: Vec<char>)
    ensures
        w@ == first_word(v@),
{
    let t: Vec<char> = trim_start_of(v);
    let mut w: Vec<char> = Vec::new();
    let mut i: usize = 0;
    assert(t@.skip(0) =~= t@);
    assert(w@ + word_prefix(t@) =~= word_prefix(t@));
    while i < t.len() && !is_white(t[i])
        invariant
            i <= t@.len(),
            w@ + word_prefix(t@.skip(i as int)) == word_prefix(t@),
        decreases t@.len() - i,
    {
        let ghost before = w@;
        w.push(t[i]);
        assert(t@.skip(i as int).skip(1) =~= t@.skip(i + 1));
        assert(before + (seq![t@[i as int]] + word_prefix(t@.skip(i + 1))) =~= w@ + word_prefix(
            t@.skip(i + 1),
        ));
        i += 1;
    }
    assert(word_prefix(t@.skip(i as int)) =~= Seq::<char>::empty());
    assert(w@ + Seq::<char>::empty() =~= w@);
    w
}

/// The top of a fenced block: a corner, and the language if there is one.
pub open spec fn code_header(lang: Seq<char>, p: Palette) -> LineView {
    if lang.len() == 0 {
        styled_line("\u{250c}"@, p.chrome())
    } else {
        line(seq![span("\u{250c} "@, p.chrome()), span(lang, p.accent())])
    }
}

fn code_block_header(lang: &[char], p: Palette) -> (l: Line)
    ensures
        l@ == code_header(lang@, p),
{
    if lang.len() == 0 {
        Line::styled("\u{250c}", p.chrome())
    } else {
        let mut spans: Vec<Span> = Vec::new();
        spans.push(Span::styled("\u{250c} ", p.chrome()));
        spans.push(Span::of(lang, p.accent()));
        let l = Line::new(spans);
        assert(l@ =~= code_header(lang@, p));
        l
    }
}

/// A line of a fenced block, as it was typed, behind a gutter.
pub open spec fn code_body(l: Seq<char>, p: Palette) -> LineView {
    line(seq![span("\u{2502} "@, p.chrome()), span(l, p.code())])
}

fn code_block_body_line(l: &[char], p: Palette) -> (r: Line)
    ensures
        r@ == code_body(l@, p),
{
    let mut spans: Vec<Span> = Vec::new();
    spans.push(Span::styled("\u{2502} ", p.chrome()));
    spans.push(Span::of(l, p.code()));
    let r = Line::new(spans);
    assert(r@ =~= code_body(l@, p));
    r
}

/// The bottom of a fenced block.
pub open spec fn code_footer(p: Palette) -> LineView {
    styled_line("\u{2514}"@, p.chrome())
}

fn code_block_footer(p: Palette) -> (l: Line)
    ensures
        l@ == code_footer(p),
{
    Line::styled("\u{2514}", p.chrome())
}

/// How often `c` stands in the text.
pub open spec fn occurrences(s: Seq<char>, c: char) -> nat
    decreases s.len(),
{
    if s.len() == 0 {
        0
    } else {
        occurrences(s.drop_last(), c) + (if s.last() == c {
            1nat
        } else {
            0nat
        })
    }
}

/// Three or more of one marker (`-`, `*`, `_`), with spaces anywhere between.
pub open spec fn thematic_break(s: Seq<char>) -> bool {
    let t = trim(s);
    &&& t.len() > 0
    &&& (t[0] == '-' || t[0] == '*' || t[0] == '_')
    &&& forall|i: int| 0 <= i < t.len() ==> #[trigger] t[i] == t[0] || t[i] == ' '
    &&& occurrences(t, t[0]) >= 3
}

fn is_thematic_break(s: &[char]) -> (r: bool)
    ensures
        r == thematic_break(s@),
{
    let t: Vec<char> = trim_of(s);
    if t.len() == 0 {
        return false;
    }
    let marker: char = t[0];
    if marker != '-' && marker != '*' && marker != '_' {
        return false;
    }
    let mut count: usize = 0;
    let mut i: usize = 0;
    while i < t.len()
        invariant
            i <= t@.len(),
            t@ == trim(s@),
            t@.len() > 0,
            marker == t@[0],
            count <= i,
            count == occurrences(t@.take(i as int), marker),
            forall|j: int| 0 <= j < i ==> t@[j] == marker || t@[j] == ' ',
        decreases t@.len() - i,
    {
        if t[i] != marker && t[i] != ' ' {
            return false;
        }
        assert(t@.take(i + 1).drop_last() =~= t@.take(i as int));
        if t[i] == marker {
            count += 1;
        }
        i += 1;
    }
    assert(t@.take(i as int) =~= t@);
    count >= 3
}

/// A dim rule of forty cells.
pub open spec fn rule(p: Palette) -> LineView {
    styled_line(repeat('\u{2500}', 40), p.chrome())
}

fn thematic_break_line(p: Palette) -> (l: Line)
    ensures
        l@ == rule(p),
{
    let mut v: Vec<char> = Vec::new();
    push_repeat(&mut v, '\u{2500}', 40);
    assert(v@ =~= repeat('\u{2500}', 40));
    Line::styled_chars(v.as_slice(), p.chrome())
}

/// The text of a heading: one to six `#`, then a space or nothing.
pub open spec fn heading_text(l: Seq<char>) -> Option<Seq<char>> {
    let t = trim_start(l);
    let hashes = run(t, '#');
    if hashes == 0 || hashes > 6 {
        None
    } else {
        let rest = t.skip(hashes as int);
        if rest.len() > 0 && rest[0] == ' ' {
            Some(rest.skip(1))
        } else if rest.len() == 0 {
            Some(Seq::empty())
        } else {
            None
        }
    }
}

fn strip_heading(l: &[char]) -> (r: Option<Vec<char>>)
    ensures
        match r {
            Some(t) => heading_text(l@) == Some(t@),
            None => heading_text(l@) is None,
        },
{
    let t: Vec<char> = trim_start_of(l);
    assert(t@.skip(0) =~= t@);
    let hashes: usize = run_of(t.as_slice(), 0, '#');
    if hashes == 0 || hashes > 6 {
        return None;
    }
    let ghost rest = t@.skip(hashes as int);
    if hashes < t.len() {
        if t[hashes] == ' ' {
            let out: Vec<char> = slice_of(t.as_slice(), hashes + 1, t.len());
            assert(out@ =~= rest.skip(1));
            Some(out)
        } else {
            None
        }
    } else {
        let out: Vec<char> = Vec::new();
        assert(out@ =~= Seq::<char>::empty());
        Some(out)
    }
}

/// What follows `lead` at the start of the text, if it stands there.
pub open spec fn after_lead(s: Seq<char>, lead: Seq<char>) -> Option<Seq<char>> {
    if stands_at(s, lead, 0) {
        Some(s.skip(lead.len() as int))
    } else {
        None
    }
}

fn strip_prefix(s: &[char], lead: &[char]) -> (r: Option<Vec<char>>)
    ensures
        match r {
            Some(t) => after_lead(s@, lead@) == Some(t@),
            None => after_lead(s@, lead@) is None,
        },
{
    if matches_at(s, lead, 0) {
        let out: Vec<char> = slice_of(s, lead.len(), s.len());
        assert(out@ =~= s@.skip(lead@.len() as int));
        Some(out)
    } else {
        None
    }
}

/// An ASCII digit.
pub open spec fn is_digit(c: char) -> bool {
    '0' <= c <= '9'
}

/// How many digits the text starts with.
pub open spec fn digits(s: Seq<char>) -> nat
    decreases s.len(),
{
    if s.len() > 0 && is_digit(s[0]) {
        1 + digits(s.skip(1))
    } else {
        0
    }
}

fn digits_of(s: &[char]) -> (n: usize)
    ensures
        n == digits(s@),
        n <= s@.len(),
{
    let mut i: usize = 0;
    assert(s@.skip(0) =~= s@);
    while i < s.len() && '0' <= s[i] && s[i] <= '9'
        invariant
            i <= s@.len(),
            digits(s@) == i + digits(s@.skip(i as int)),
        decreases s@.len() - i,
    {
        assert(s@.skip(i as int).skip(1) =~= s@.skip(i + 1));
        i += 1;
    }
    i
}

/// The number and the text of an ordered item: digits, then `. ` or `) `.
pub open spec fn ordered_item(l: Seq<char>) -> Option<(Seq<char>, Seq<char>)> {
    let t = trim_start(l);
    let n = digits(t);
    if n == 0 {
        None
    } else {
        let after = t.skip(n as int);
        if let Some(rest) = after_lead(after, seq!['.', ' ']) {
            Some((t.take(n as int), rest))
        } else if let Some(rest) = after_lead(after, seq![')', ' ']) {
            Some((t.take(n as int), rest))
        } else {
            None
        }
    }
}

fn strip_ordered(l: &[char]) -> (r: Option<(Vec<char>, Vec<char>)>)
    ensures
        match r {
            Some((num, t)) => ordered_item(l@) == Some((num@, t@)),
            None => ordered_item(l@) is None,
        },
{
    let t: Vec<char> = trim_start_of(l);
    let n: usize = digits_of(t.as_slice());
    if n == 0 {
        return None;
    }
    let after: Vec<char> = slice_of(t.as_slice(), n, t.len());
    assert(after@ =~= t@.skip(n as int));
    let num: Vec<char> = slice_of(t.as_slice(), 0, n);
    assert(num@ =~= t@.take(n as int));
    let dot: [char; 2] = ['.', ' '];
    assert(dot@ =~= seq!['.', ' ']);
    if let Some(rest) = strip_prefix(after.as_slice(), dot.as_slice()) {
        return Some((num, rest));
    }
    let paren: [char; 2] = [')', ' '];
    assert(paren@ =~= seq![')', ' ']);
    match strip_prefix(after.as_slice(), paren.as_slice()) {
        Some(rest) => Some((num, rest)),
        None => None,
    }
}

/// The text of a bullet item: `- `, `* ` or `+ ` before it.
pub open spec fn bullet_item(t: Seq<char>) -> Option<Seq<char>> {
    if let Some(rest) = after_lead(t, seq!['-', ' ']) {
        Some(rest)
    } else if let Some(rest) = after_lead(t, seq!['*', ' ']) {
        Some(rest)
    } else {
        after_lead(t, seq!['+', ' '])
    }
}

fn strip_bullet(t: &[char]) -> (r: Option<Vec<char>>)
    ensures
        match r {
            Some(rest) => bullet_item(t@) == Some(rest@),
            None => bullet_item(t@) is None,
        },
{
    let dash: [char; 2] = ['-', ' '];
    assert(dash@ =~= seq!['-', ' ']);
    if let Some(rest) = strip_prefix(t, dash.as_slice()) {
        return Some(rest);
    }
    let star: [char; 2] = ['*', ' '];
    assert(star@ =~= seq!['*', ' ']);
    if let Some(rest) = strip_prefix(t, star.as_slice()) {
        return Some(rest);
    }
    let plus: [char; 2] = ['+', ' '];
    assert(plus@ =~= seq!['+', ' ']);
    strip_prefix(t, plus.as_slice())
}

/// The line of a source line that opens no block of several lines.
pub open spec fn single_line(l: Seq<char>, p: Palette) -> LineView {
    let t = trim_start(l);
    if thematic_break(t) {
        rule(p)
    } else if let Some(rest) = heading_text(l) {
        LineView {
            spans: inline(trim(rest), Seq::empty(), p),
            style: heading_look(run(l, '#'), p),
        }
    } else if let Some(rest) = after_lead(t, seq!['>', ' ']) {
        LineView { spans: inline(rest, Seq::empty(), p), style: p.chrome() }
    } else if let Some(rest) = bullet_item(t) {
        line(seq![span("\u{2022} "@, p.chrome())] + inline(rest, Seq::empty(), p))
    } else if let Some((num, rest)) = ordered_item(l) {
        line(seq![span(num + seq!['.', ' '], p.chrome())] + inline(rest, Seq::empty(), p))
    } else if t.len() == 0 {
        blank_line()
    } else {
        line(inline(l, Seq::empty(), p))
    }
}

fn parse_single(l: &[char], p: Palette) -> (r: Line)
    ensures
        r@ == single_line(l@, p),
{
    let t: Vec<char> = trim_start_of(l);
    if is_thematic_break(t.as_slice()) {
        return thematic_break_line(p);
    }
    if let Some(rest) = strip_heading(l) {
        assert(l@.skip(0) =~= l@);
        let level: usize = run_of(l, 0, '#');
        let inner: Vec<char> = trim_of(rest.as_slice());
        return Line { spans: inline_spans(inner.as_slice(), p), style: heading_style(level, p) };
    }
    let quote: [char; 2] = ['>', ' '];
    assert(quote@ =~= seq!['>', ' ']);
    if let Some(rest) = strip_prefix(t.as_slice(), quote.as_slice()) {
        return Line { spans: inline_spans(rest.as_slice(), p), style: p.chrome() };
    }
    if let Some(rest) = strip_bullet(t.as_slice()) {
        let mut spans: Vec<Span> = Vec::new();
        spans.push(Span::styled("\u{2022} ", p.chrome()));
        let ghost head = span_views(spans@);
        assert(head =~= seq![span("\u{2022} "@, p.chrome())]);
        append_spans(&mut spans, inline_spans(rest.as_slice(), p));
        return Line::new(spans);
    }
    if let Some((num, rest)) = strip_ordered(l) {
        let mut lead: Vec<char> = num;
        let ghost n0 = lead@;
        lead.push('.');
        lead.push(' ');
        assert(lead@ =~= n0 + seq!['.', ' ']);
        let mut spans: Vec<Span> = Vec::new();
        spans.push(Span::of(lead.as_slice(), p.chrome()));
        let ghost head = span_views(spans@);
        assert(head =~= seq![span(lead@, p.chrome())]);
        append_spans(&mut spans, inline_spans(rest.as_slice(), p));
        return Line::new(spans);
    }
    if t.len() == 0 {
        return Line::blank();
    }
    Line::new(inline_spans(l, p))
}

// ---- tables -----------------------------------------------------------------

/// The text without one `|` at its start.
pub open spec fn without_first_bar(s: Seq<char>) -> Seq<char> {
    if s.len() > 0 && s[0] == '|' {
        s.skip(1)
    } else {
        s
    }
}

/// The text without one `|` at its end.
pub open spec fn without_last_bar(s: Seq<char>) -> Seq<char> {
    if s.len() > 0 && s.last() == '|' {
        s.drop_last()
    } else {
        s
    }
}

/// The trimmed cells of the rest of a row, `cur` being what the present cell
/// holds so far. A bar behind a backslash is part of its cell.
pub open spec fn cells_from(s: Seq<char>, cur: Seq<char>) -> Seq<Seq<char>>
    decreases s.len(),
{
    if s.len() == 0 {
        seq![trim(cur)]
    } else if s[0] == '\\' && s.len() > 1 && s[1] == '|' {
        cells_from(s.skip(2), cur.push('|'))
    } else if s[0] == '|' {
        seq![trim(cur)] + cells_from(s.skip(1), Seq::empty())
    } else {
        cells_from(s.skip(1), cur.push(s[0]))
    }
}

/// The trimmed cells of a table row.
pub open spec fn row_cells(l: Seq<char>) -> Seq<Seq<char>> {
    cells_from(without_last_bar(without_first_bar(trim(l))), Seq::empty())
}

fn split_row(l: &[char]) -> (cells: Vec<Vec<char>>)
    ensures
        texts(cells@) == row_cells(l@),
        cells@.len() > 0,
{
    let t: Vec<char> = trim_of(l);
    let from: usize = if t.len() > 0 && t[0] == '|' {
        1
    } else {
        0
    };
    let a: Vec<char> = slice_of(t.as_slice(), from, t.len());
    assert(a@ =~= without_first_bar(t@));
    let to: usize = if a.len() > 0 && a[a.len() - 1] == '|' {
        a.len() - 1
    } else {
        a.len()
    };
    let b: Vec<char> = slice_of(a.as_slice(), 0, to);
    assert(b@ =~= without_last_bar(a@));
    let mut cells: Vec<Vec<char>> = Vec::new();
    let mut cur: Vec<char> = Vec::new();
    let mut i: usize = 0;
    assert(b@.skip(0) =~= b@);
    assert(texts(cells@) + cells_from(b@, Seq::empty()) =~= cells_from(b@, Seq::empty()));
    while i < b.len()
        invariant
            i <= b@.len(),
            texts(cells@) + cells_from(b@.skip(i as int), cur@) == cells_from(b@, Seq::empty()),
        decreases b@.len() - i,
    {
        let ghost s = b@.skip(i as int);
        assert(s.skip(1) =~= b@.skip(i + 1));
        if b[i] == '\\' && i + 1 < b.len() && b[i + 1] == '|' {
            assert(s.skip(2) =~= b@.skip(i + 2));
            cur.push('|');
            i += 2;
        } else if b[i] == '|' {
            let ghost before = texts(cells@);
            let done: Vec<char> = trim_of(cur.as_slice());
            let ghost d = done@;
            cells.push(done);
            assert(texts(cells@) =~= before.push(d));
            cur = Vec::new();
            assert(cur@ =~= Seq::<char>::empty());
            let ghost tail = cells_from(b@.skip(i + 1), Seq::empty());
            assert(before + (seq![d] + tail) =~= before.push(d) + tail);
            i += 1;
        } else {
            cur.push(b[i]);
            i += 1;
        }
    }
    let ghost before = texts(cells@);
    let done: Vec<char> = trim_of(cur.as_slice());
    let ghost d = done@;
    cells.push(done);
    assert(texts(cells@) =~= before + seq![d]);
    cells
}

/// A delimiter cell: only `-` and `:`, with at least one `-`.
pub open spec fn delimiter_cell(c: Seq<char>) -> bool {
    let s = trim(c);
    &&& s.len() > 0
    &&& forall|i: int| 0 <= i < s.len() ==> s[i] == '-' || s[i] == ':'
    &&& s.contains('-')
}

/// A delimiter row: at least one cell, and all are delimiter cells.
pub open spec fn delimiter_row(cells: Seq<Seq<char>>) -> bool {
    cells.len() > 0 && forall|i: int| 0 <= i < cells.len() ==> delimiter_cell(#[trigger] cells[i])
}

fn is_delimiter_cell(c: &[char]) -> (r: bool)
    ensures
        r == delimiter_cell(c@),
{
    let s: Vec<char> = trim_of(c);
    if s.len() == 0 {
        return false;
    }
    let mut i: usize = 0;
    while i < s.len()
        invariant
            i <= s@.len(),
            s@ == trim(c@),
            forall|j: int| 0 <= j < i ==> s@[j] == '-' || s@[j] == ':',
        decreases s@.len() - i,
    {
        if s[i] != '-' && s[i] != ':' {
            return false;
        }
        i += 1;
    }
    holds(s.as_slice(), '-')
}

fn is_delimiter_row(cells: &Vec<Vec<char>>) -> (r: bool)
    ensures
        r == delimiter_row(texts(cells@)),
{
    if cells.len() == 0 {
        return false;
    }
    let mut i: usize = 0;
    while i < cells.len()
        invariant
            i <= cells@.len(),
            cells@.len() > 0,
            forall|j: int| 0 <= j < i ==> delimiter_cell(#[trigger] texts(cells@)[j]),
        decreases cells@.len() - i,
    {
        if !is_delimiter_cell(cells[i].as_slice()) {
            assert(!delimiter_cell(texts(cells@)[i as int]));
            return false;
        }
        i += 1;
    }
    true
}

/// The rows of a table as texts.
pub open spec fn table_texts(rows: Seq<Vec<Vec<char>>>) -> Seq<Seq<Seq<char>>> {
    rows.map_values(|r: Vec<Vec<char>>| texts(r@))
}

/// The length of the longest cell in column `c` of the first `n` rows and the header.
pub open spec fn column_width(header: Seq<Seq<char>>, rows: Seq<Seq<Seq<char>>>, c: int, n: nat) -> nat
    decreases n,
{
    if n == 0 {
        header[c].len()
    } else {
        let w = column_width(header, rows, c, (n - 1) as nat);
        let row = rows[n - 1];
        if c < row.len() && row[c].len() > w {
            row[c].len()
        } else {
            w
        }
    }
}

/// The widths of all columns.
pub open spec fn column_widths(header: Seq<Seq<char>>, rows: Seq<Seq<Seq<char>>>) -> Seq<nat> {
    Seq::new(header.len(), |c: int| column_width(header, rows, c, rows.len()))
}

/// The lengths as numbers.
pub open spec fn nats(v: Seq<usize>) -> Seq<nat> {
    Seq::new(v.len(), |i: int| v[i] as nat)
}

/// The part of a border over the first `n` columns.
pub open spec fn border_part(widths: Seq<nat>, mid: char, n: nat) -> Seq<char>
    decreases n,
{
    if n == 0 {
        Seq::empty()
    } else {
        border_part(widths, mid, (n - 1) as nat) + (if n > 1 {
            seq![mid]
        } else {
            Seq::empty()
        }) + repeat('\u{2500}', widths[n - 1]) + seq!['\u{2500}', '\u{2500}']
    }
}

/// A border: a corner, a run of two cells more than its width for each column
/// with `mid` between, and a corner.
pub open spec fn border(widths: Seq<nat>, left: char, mid: char, right: char) -> Seq<char> {
    seq![left] + border_part(widths, mid, widths.len()) + seq![right]
}

fn border_line(widths: &Vec<usize>, left: char, mid: char, right: char) -> (s: Vec<char>)
    ensures
        s@ == border(nats(widths@), left, mid, right),
{
    let mut s: Vec<char> = Vec::new();
    s.push(left);
    let mut i: usize = 0;
    assert(s@ =~= seq![left] + border_part(nats(widths@), mid, 0));
    while i < widths.len()
        invariant
            i <= widths@.len(),
            s@ == seq![left] + border_part(nats(widths@), mid, i as nat),
        decreases widths@.len() - i,
    {
        if i > 0 {
            s.push(mid);
        }
        push_repeat(&mut s, '\u{2500}', widths[i]);
        s.push('\u{2500}');
        s.push('\u{2500}');
        i += 1;
        assert(s@ =~= seq![left] + border_part(nats(widths@), mid, i as nat));
    }
    s.push(right);
    assert(s@ =~= border(nats(widths@), left, mid, right));
    s
}

/// The number of characters of some spans.
pub open spec fn char_count(spans: Seq<SpanView>) -> nat
    decreases spans.len(),
{
    if spans.len() == 0 {
        0
    } else {
        char_count(spans.drop_last()) + spans.last().content.len()
    }
}

/// The number of characters of some spans, or the largest number there is.
pub fn char_count_of(spans: &[Span]) -> (n: usize)
    ensures
        n as nat == char_count(span_views(spans@)) || n == usize::MAX && char_count(
            span_views(spans@),
        ) >= usize::MAX,
{
    let mut n: usize = 0;
    let mut i: usize = 0;
    while i < spans.len()
        invariant
            i <= spans@.len(),
            n as nat == char_count(span_views(spans@).take(i as int)) || n == usize::MAX
                && char_count(span_views(spans@).take(i as int)) >= usize::MAX,
        decreases spans@.len() - i,
    {
        let len: usize = spans[i].content.as_str().unicode_len();
        n = n.saturating_add(len);
        i += 1;
        assert(span_views(spans@).take(i as int).drop_last() =~= span_views(spans@).take(i - 1));
        assert(span_views(spans@).take(i as int).last() == spans@[i - 1]@);
    }
    assert(span_views(spans@).take(i as int) =~= span_views(spans@));
    n
}

/// The spans of a cell, filled up to its column.
pub open spec fn cell_spans(cell: Seq<char>, w: nat, header: bool, p: Palette) -> Seq<SpanView> {
    let body = if header {
        seq![span(cell, Style { bold: true, ..p.accent() })]
    } else {
        inline(cell, Seq::empty(), p)
    };
    let used = char_count(body);
    if used < w {
        body.push(raw(repeat(' ', (w - used) as nat)))
    } else {
        body
    }
}

/// The spans of the first `n` cells of a row, each behind a space and before a
/// space and a bar.
pub open spec fn row_part(
    cells: Seq<Seq<char>>,
    widths: Seq<nat>,
    header: bool,
    p: Palette,
    n: nat,
) -> Seq<SpanView>
    decreases n,
{
    if n == 0 {
        seq![span("\u{2502}"@, p.chrome())]
    } else {
        let c = n - 1;
        let cell = if c < cells.len() {
            cells[c]
        } else {
            Seq::empty()
        };
        row_part(cells, widths, header, p, (n - 1) as nat) + seq![span(" "@, p.chrome())]
            + cell_spans(cell, widths[c], header, p) + seq![
            span(" "@, p.chrome()),
            span("\u{2502}"@, p.chrome()),
        ]
    }
}

/// One row of a table.
pub open spec fn table_row(
    cells: Seq<Seq<char>>,
    widths: Seq<nat>,
    header: bool,
    p: Palette,
) -> LineView {
    line(row_part(cells, widths, header, p, widths.len()))
}

fn table_cell(cell: &[char], w: usize, header: bool, p: Palette) -> (spans: Vec<Span>)
    ensures
        span_views(spans@) == cell_spans(cell@, w as nat, header, p),
{
    let mut spans: Vec<Span>;
    if header {
        spans = Vec::new();
        spans.push(Span::of(cell, p.accent().bold()));
        assert(span_views(spans@) =~= seq![span(cell@, Style { bold: true, ..p.accent() })]);
    } else {
        spans = inline_spans(cell, p);
    }
    let used: usize = char_count_of(spans.as_slice());
    let ghost body = span_views(spans@);
    if used < w {
        let mut pad: Vec<char> = Vec::new();
        push_repeat(&mut pad, ' ', w - used);
        assert(pad@ =~= repeat(' ', (w - used) as nat));
        spans.push(Span::of(pad.as_slice(), Style::plain()));
        assert(span_views(spans@) =~= body.push(raw(pad@)));
    }
    spans
}

fn table_row_line(cells: &Vec<Vec<char>>, widths: &Vec<usize>, header: bool, p: Palette) -> (l: Line)
    ensures
        l@ == table_row(texts(cells@), nats(widths@), header, p),
{
    let mut spans: Vec<Span> = Vec::new();
    spans.push(Span::styled("\u{2502}", p.chrome()));
    let mut i: usize = 0;
    assert(span_views(spans@) =~= row_part(texts(cells@), nats(widths@), header, p, 0));
    while i < widths.len()
        invariant
            i <= widths@.len(),
            span_views(spans@) == row_part(texts(cells@), nats(widths@), header, p, i as nat),
        decreases widths@.len() - i,
    {
        let ghost before = span_views(spans@);
        spans.push(Span::styled(" ", p.chrome()));
        assert(span_views(spans@) =~= before + seq![span(" "@, p.chrome())]);
        let empty: Vec<char> = Vec::new();
        assert(empty@ =~= Seq::<char>::empty());
        let part: Vec<Span> = if i < cells.len() {
            table_cell(cells[i].as_slice(), widths[i], header, p)
        } else {
            table_cell(empty.as_slice(), widths[i], header, p)
        };
        append_spans(&mut spans, part);
        let ghost mid = span_views(spans@);
        spans.push(Span::styled(" ", p.chrome()));
        spans.push(Span::styled("\u{2502}", p.chrome()));
        assert(span_views(spans@) =~= mid + seq![
            span(" "@, p.chrome()),
            span("\u{2502}"@, p.chrome()),
        ]);
        i += 1;
    }
    Line::new(spans)
}

/// The rows of a table with a border between every two, `from` the first.
pub open spec fn table_body(
    rows: Seq<Seq<Seq<char>>>,
    widths: Seq<nat>,
    p: Palette,
    n: nat,
) -> Seq<LineView>
    decreases n,
{
    if n == 0 {
        Seq::empty()
    } else {
        table_body(rows, widths, p, (n - 1) as nat) + (if n > 1 {
            seq![styled_line(border(widths, '\u{251c}', '\u{253c}', '\u{2524}'), p.chrome())]
        } else {
            Seq::empty()
        }) + seq![table_row(rows[n - 1], widths, false, p)]
    }
}

/// A table as a box: top border, header, border, rows with borders between,
/// bottom border.
pub open spec fn table_lines(header: Seq<Seq<char>>, rows: Seq<Seq<Seq<char>>>, p: Palette) -> Seq<
    LineView,
> {
    let widths = column_widths(header, rows);
    seq![
        styled_line(border(widths, '\u{250c}', '\u{252c}', '\u{2510}'), p.chrome()),
        table_row(header, widths, true, p),
        styled_line(border(widths, '\u{251c}', '\u{253c}', '\u{2524}'), p.chrome()),
    ] + table_body(rows, widths, p, rows.len()) + seq![
        styled_line(border(widths, '\u{2514}', '\u{2534}', '\u{2518}'), p.chrome()),
    ]
}

fn widths_of(header: &Vec<Vec<char>>, rows: &Vec<Vec<Vec<char>>>) -> (widths: Vec<usize>)
    ensures
        nats(widths@) == column_widths(texts(header@), table_texts(rows@)),
{
    let ghost h = texts(header@);
    let ghost rs = table_texts(rows@);
    let mut widths: Vec<usize> = Vec::new();
    let mut c: usize = 0;
    while c < header.len()
        invariant
            c <= header@.len(),
            h == texts(header@),
            rs == table_texts(rows@),
            widths@.len() == c,
            forall|q: int| 0 <= q < c ==> #[trigger] widths@[q] == column_width(h, rs, q, rs.len()),
        decreases header@.len() - c,
    {
        let mut w: usize = header[c].len();
        let mut r: usize = 0;
        while r < rows.len()
            invariant
                r <= rows@.len(),
                c < header@.len(),
                h == texts(header@),
                rs == table_texts(rows@),
                w == column_width(h, rs, c as int, r as nat),
            decreases rows@.len() - r,
        {
            assert(rs[r as int] == texts(rows@[r as int]@));
            if c < rows[r].len() {
                let len: usize = rows[r][c].len();
                if len > w {
                    w = len;
                }
            }
            r += 1;
        }
        widths.push(w);
        c += 1;
    }
    assert(nats(widths@) =~= column_widths(h, rs));
    widths
}

fn render_table(header: &Vec<Vec<char>>, rows: &Vec<Vec<Vec<char>>>, p: Palette) -> (out: Vec<Line>)
    ensures
        line_views(out@) == table_lines(texts(header@), table_texts(rows@), p),
{
    let widths: Vec<usize> = widths_of(header, rows);
    let ghost ws = nats(widths@);
    let ghost rs = table_texts(rows@);
    let mut out: Vec<Line> = Vec::new();
    let top: Vec<char> = border_line(&widths, '\u{250c}', '\u{252c}', '\u{2510}');
    out.push(Line::styled_chars(top.as_slice(), p.chrome()));
    out.push(table_row_line(header, &widths, true, p));
    let between_rows: Vec<char> = border_line(&widths, '\u{251c}', '\u{253c}', '\u{2524}');
    out.push(Line::styled_chars(between_rows.as_slice(), p.chrome()));
    let ghost head = line_views(out@);
    let mut i: usize = 0;
    assert(line_views(out@) =~= head + table_body(rs, ws, p, 0));
    while i < rows.len()
        invariant
            i <= rows@.len(),
            ws == nats(widths@),
            rs == table_texts(rows@),
            between_rows@ == border(ws, '\u{251c}', '\u{253c}', '\u{2524}'),
            line_views(out@) == head + table_body(rs, ws, p, i as nat),
        decreases rows@.len() - i,
    {
        let ghost before = line_views(out@);
        if i > 0 {
            out.push(Line::styled_chars(between_rows.as_slice(), p.chrome()));
        }
        let row: Line = table_row_line(&rows[i], &widths, false, p);
        let ghost rv = row@;
        let ghost mid = line_views(out@);
        let ghost sep = if i > 0 {
            seq![styled_line(border(ws, '\u{251c}', '\u{253c}', '\u{2524}'), p.chrome())]
        } else {
            Seq::empty()
        };
        assert(mid =~= before + sep);
        out.push(row);
        i += 1;
        assert(rs[i - 1] == texts(rows@[i - 1]@));
        assert(line_views(out@) =~= mid.push(rv));
        assert(line_views(out@) =~= head + table_body(rs, ws, p, i as nat));
    }
    let bottom: Vec<char> = border_line(&widths, '\u{2514}', '\u{2534}', '\u{2518}');
    let last: Line = Line::styled_chars(bottom.as_slice(), p.chrome());
    let ghost lv = last@;
    let ghost mid = line_views(out@);
    out.push(last);
    assert(line_views(out@) =~= mid.push(lv));
    assert(line_views(out@) =~= table_lines(texts(header@), rs, p));
    out
}

/// A table starts at line `i`: it has a bar, and the next line is a delimiter
/// row with as many cells.
pub open spec fn table_at(lines: Seq<Seq<char>>, i: int) -> bool {
    &&& trim_start(lines[i]).contains('|')
    &&& i + 1 < lines.len()
    &&& row_cells(lines[i]).len() == row_cells(lines[i + 1]).len()
    &&& delimiter_row(row_cells(lines[i + 1]))
}

/// A line that continues a table: something with a bar.
pub open spec fn table_goes_on(l: Seq<char>) -> bool {
    trim(l).len() > 0 && trim(l).contains('|')
}

/// The first line at or after `i` that ends a table.
pub open spec fn table_end(lines: Seq<Seq<char>>, i: int) -> int
    decreases lines.len() - i,
{
    if 0 <= i < lines.len() && table_goes_on(lines[i]) {
        table_end(lines, i + 1)
    } else {
        i
    }
}

/// A table ends no earlier than it goes on, and no later than the text.
pub proof fn lemma_table_end(lines: Seq<Seq<char>>, i: int)
    requires
        0 <= i <= lines.len(),
    ensures
        i <= table_end(lines, i) <= lines.len(),
    decreases lines.len() - i,
{
    if i < lines.len() && table_goes_on(lines[i]) {
        lemma_table_end(lines, i + 1);
    }
}

/// The cells of the lines from `i` to before `e`.
pub open spec fn rows_between(lines: Seq<Seq<char>>, i: int, e: int) -> Seq<Seq<Seq<char>>> {
    Seq::new((e - i) as nat, |j: int| row_cells(lines[i + j]))
}

/// A line that closes the fence: three or more of its marker and nothing else.
pub open spec fn closes_fence(t: Seq<char>, m: char) -> bool {
    t.len() >= 3 && forall|i: int| 0 <= i < t.len() ==> t[i] == m
}

/// The styled lines of the source lines from `i` on, `fence` being the marker
/// of the open fence.
pub open spec fn blocks_from(
    lines: Seq<Seq<char>>,
    i: int,
    fence: Option<char>,
    p: Palette,
) -> Seq<LineView>
    decreases lines.len() - i,
{
    if i < 0 || i >= lines.len() {
        Seq::empty()
    } else {
        let l = lines[i];
        let t = trim_start(l);
        match fence {
            Some(m) => if closes_fence(t, m) {
                seq![code_footer(p)] + blocks_from(lines, i + 1, None, p)
            } else {
                seq![code_body(l, p)] + blocks_from(lines, i + 1, fence, p)
            },
            None => if stands_at(t, seq!['`', '`', '`'], 0) {
                seq![code_header(first_word(t.skip(3)), p)] + blocks_from(
                    lines,
                    i + 1,
                    Some('`'),
                    p,
                )
            } else if stands_at(t, seq!['~', '~', '~'], 0) {
                seq![code_header(first_word(t.skip(3)), p)] + blocks_from(
                    lines,
                    i + 1,
                    Some('~'),
                    p,
                )
            } else if table_at(lines, i) {
                let e = table_end(lines, i + 2);
                proof {
                    lemma_table_end(lines, i + 2);
                }
                table_lines(row_cells(l), rows_between(lines, i + 2, e), p) + blocks_from(
                    lines,
                    e,
                    None,
                    p,
                )
            } else {
                seq![single_line(l, p)] + blocks_from(lines, i + 1, None, p)
            },
        }
    }
}

/// The styled lines of a text.
pub open spec fn blocks(text: Seq<char>, p: Palette) -> Seq<LineView> {
    blocks_from(split(text, '\n'), 0, None, p)
}

/// The body rows of a table from line `i` on, and the line that ends it.
fn table_rows(lines: &Vec<Vec<char>>, i: usize) -> (r: (Vec<Vec<Vec<char>>>, usize))
    requires
        i <= lines@.len(),
    ensures
        r.1 == table_end(texts(lines@), i as int),
        i <= r.1 <= lines@.len(),
        table_texts(r.0@) == rows_between(texts(lines@), i as int, r.1 as int),
{
    let ghost ls = texts(lines@);
    let mut rows: Vec<Vec<Vec<char>>> = Vec::new();
    let mut e: usize = i;
    let mut more: bool = true;
    while more && e < lines.len()
        invariant
            i <= e <= lines@.len(),
            ls == texts(lines@),
            table_end(ls, i as int) == table_end(ls, e as int),
            !more ==> e < lines@.len() && !table_goes_on(ls[e as int]),
            table_texts(rows@) == rows_between(ls, i as int, e as int),
        decreases lines@.len() - e,
            (if more {
                1int
            } else {
                0int
            }),
    {
        let rt: Vec<char> = trim_of(lines[e].as_slice());
        if rt.len() == 0 || !holds(rt.as_slice(), '|') {
            more = false;
        } else {
            let ghost before = table_texts(rows@);
            let cells: Vec<Vec<char>> = split_row(lines[e].as_slice());
            let ghost cv = texts(cells@);
            rows.push(cells);
            e += 1;
            assert(table_texts(rows@) =~= before.push(cv));
            assert(table_texts(rows@) =~= rows_between(ls, i as int, e as int));
        }
    }
    (rows, e)
}

/// Whether a line closes the fence.
fn is_closing(t: &[char], m: char) -> (r: bool)
    ensures
        r == closes_fence(t@, m),
{
    if t.len() < 3 {
        return false;
    }
    let mut i: usize = 0;
    while i < t.len()
        invariant
            i <= t@.len(),
            forall|j: int| 0 <= j < i ==> t@[j] == m,
        decreases t@.len() - i,
    {
        if t[i] != m {
            return false;
        }
        i += 1;
    }
    true
}

/// Parse markdown into styled lines, one logical line per source line. The
/// caller wraps them to the width of the terminal.
pub fn parse_blocks(text: &str, p: Palette) -> (out: Vec<Line>)
    ensures
        line_views(out@) == blocks(text@, p),
{
    let chars: Vec<char> = chars_of(text);
    let lines: Vec<Vec<char>> = split_of(chars.as_slice(), '\n');
    let ghost ls = texts(lines@);
    let mut out: Vec<Line> = Vec::new();
    let mut fence: Option<char> = None;
    let ticks: [char; 3] = ['`', '`', '`'];
    assert(ticks@ =~= seq!['`', '`', '`']);
    let tildes: [char; 3] = ['~', '~', '~'];
    assert(tildes@ =~= seq!['~', '~', '~']);
    let mut i: usize = 0;
    assert(line_views(out@) + blocks_from(ls, 0, None, p) =~= blocks_from(ls, 0, None, p));
    while i < lines.len()
        invariant
            i <= lines@.len(),
            ls == texts(lines@),
            ticks@ == seq!['`', '`', '`'],
            tildes@ == seq!['~', '~', '~'],
            line_views(out@) + blocks_from(ls, i as int, fence, p) == blocks_from(ls, 0, None, p),
        decreases lines@.len() - i,
    {
        let t: Vec<char> = trim_start_of(lines[i].as_slice());
        assert(ls[i as int] == lines@[i as int]@);
        let ghost before = line_views(out@);
        if let Some(m) = fence {
            if is_closing(t.as_slice(), m) {
                fence = None;
                push_line(&mut out, code_block_footer(p), Ghost(blocks_from(ls, i + 1, None, p)));
            } else {
                push_line(
                    &mut out,
                    code_block_body_line(lines[i].as_slice(), p),
                    Ghost(blocks_from(ls, i + 1, fence, p)),
                );
            }
            i += 1;
        } else if matches_at(t.as_slice(), ticks.as_slice(), 0) || matches_at(
            t.as_slice(),
            tildes.as_slice(),
            0,
        ) {
            let marker: char = if matches_at(t.as_slice(), ticks.as_slice(), 0) {
                '`'
            } else {
                '~'
            };
            fence = Some(marker);
            let info: Vec<char> = slice_of(t.as_slice(), 3, t.len());
            assert(info@ =~= t@.skip(3));
            let lang: Vec<char> = first_word_of(info.as_slice());
            push_line(
                &mut out,
                code_block_header(lang.as_slice(), p),
                Ghost(blocks_from(ls, i + 1, fence, p)),
            );
            i += 1;
        } else {
            let mut table: bool = false;
            let hcells: Vec<Vec<char>> = split_row(lines[i].as_slice());
            if holds(t.as_slice(), '|') && i + 1 < lines.len() {
                let dcells: Vec<Vec<char>> = split_row(lines[i + 1].as_slice());
                assert(ls[i + 1] == lines@[i + 1]@);
                table = hcells.len() == dcells.len() && is_delimiter_row(&dcells);
                assert(texts(hcells@).len() == hcells@.len());
                assert(texts(dcells@).len() == dcells@.len());
            }
            assert(table == table_at(ls, i as int));
            if table {
                let (rows, e) = table_rows(&lines, i + 2);
                let part: Vec<Line> = render_table(&hcells, &rows, p);
                let ghost pv = line_views(part@);
                append_lines(&mut out, part);
                assert(before + (pv + blocks_from(ls, e as int, None, p)) =~= (before + pv)
                    + blocks_from(ls, e as int, None, p));
                i = e;
            } else {
                push_line(
                    &mut out,
                    parse_single(lines[i].as_slice(), p),
                    Ghost(blocks_from(ls, i + 1, None, p)),
                );
                i += 1;
            }
        }
    }
    assert(blocks_from(ls, i as int, fence, p) =~= Seq::<LineView>::empty());
    assert(line_views(out@) + Seq::<LineView>::empty() =~= line_views(out@));
    out
}

/// Append a line, before whatever is to come.
fn push_line(out: &mut Vec<Line>, l: Line, Ghost(rest): Ghost<Seq<LineView>>)
    ensures
        line_views(final(out)@) + rest == line_views(old(out)@) + (seq![l@] + rest),
{
    let ghost before = line_views(out@);
    let ghost lv = l@;
    out.push(l);
    assert(line_views(out@) =~= before.push(lv));
    assert(before.push(lv) + rest =~= before + (seq![lv] + rest));
}

} // verus!
