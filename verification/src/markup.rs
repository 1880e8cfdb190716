//! What markdown reads as: for every construct, the text that is written and the
//! line or span that comes of it.
use crate::markdown::{
    after_lead,
    backticks_from,
    blocks,
    blocks_from,
    border,
    border_part,
    cell_spans,
    cells_from,
    char_count,
    closes_fence,
    code_span,
    column_width,
    column_widths,
    construct,
    delimiter_cell,
    delimiter_row,
    digits,
    emphasis,
    flushed,
    heading_text,
    link,
    occurrences,
    ordered_item,
    row_cells,
    row_part,
    rows_between,
    single_line,
    strikethrough,
    strong,
    table_at,
    table_body,
    table_end,
    table_lines,
    thematic_break,
    word_prefix,
};
use crate::styled::{plain_style, raw, LineView, SpanView, Style};
use crate::text::{find, lemma_find_from, run, split, stands_at, trim, trim_end, trim_start, white};
use crate::theme::Palette;
use vstd::prelude::*;
use vstd::string::*;

verus! {

// ---- texts ------------------------------------------------------------------
/// `n` times a character.
pub open spec fn times(n: nat, c: char) -> Seq<char> {
    Seq::new(n, |i: int| c)
}

/// None of the characters is `c`.
pub open spec fn without(s: Seq<char>, c: char) -> bool {
    forall|i: int| 0 <= i < s.len() ==> #[trigger] s[i] != c
}

/// Something with no white space at either end.
pub open spec fn tight(s: Seq<char>) -> bool {
    s.len() > 0 && !white(s[0]) && !white(s.last())
}

/// A text without a newline is one line.
pub proof fn a_text_without_newlines_is_one_line(s: Seq<char>)
    requires
        without(s, '\n'),
    ensures
        split(s, '\n') == seq![s],
    decreases s.len(),
{
    if s.len() == 0 {
        assert(s =~= Seq::<char>::empty());
        assert(split(s, '\n') =~= seq![s]);
    } else {
        let t = s.drop_last();
        assert(without(t, '\n')) by {
            assert forall|i: int| 0 <= i < t.len() implies #[trigger] t[i] != '\n' by {
                assert(s[i] != '\n');
            }
        }
        a_text_without_newlines_is_one_line(t);
        assert(s[s.len() - 1] != '\n');
        assert(t.push(s.last()) =~= s);
        assert(split(s, '\n') =~= seq![s]);
    }
}

/// A newline ends a line: what is before it and what is behind it are read apart.
pub proof fn a_newline_ends_a_line(a: Seq<char>, b: Seq<char>)
    ensures
        split(a.push('\n') + b, '\n') == split(a, '\n') + split(b, '\n'),
    decreases b.len(),
{
    let s = a.push('\n') + b;
    crate::text::lemma_split_nonempty(a, '\n');
    if b.len() == 0 {
        assert(s =~= a.push('\n'));
        assert(s.drop_last() =~= a);
        assert(split(s, '\n') =~= split(a, '\n') + split(b, '\n'));
    } else {
        let c = b.drop_last();
        a_newline_ends_a_line(a, c);
        crate::text::lemma_split_nonempty(c, '\n');
        assert(s.drop_last() =~= a.push('\n') + c);
        assert(s.last() == b.last());
        let x = split(a, '\n');
        let y = split(c, '\n');
        assert((x + y).last() == y.last());
        assert((x + y).drop_last() =~= x + y.drop_last());
        assert(split(s, '\n') =~= x + split(b, '\n'));
    }
}

proof fn lemma_run(n: nat, c: char, rest: Seq<char>)
    requires
        rest.len() == 0 || rest[0] != c,
    ensures
        run(times(n, c) + rest, c) == n,
        (times(n, c) + rest).skip(n as int) == rest,
    decreases n,
{
    let s = times(n, c) + rest;
    assert(s.skip(n as int) =~= rest);
    if n > 0 {
        lemma_run((n - 1) as nat, c, rest);
        assert(s.skip(1) =~= times((n - 1) as nat, c) + rest);
    } else {
        assert(s =~= rest);
    }
}

/// What stands first is what is found.
proof fn lemma_found(s: Seq<char>, p: Seq<char>, at: int)
    requires
        stands_at(s, p, at),
        forall|q: int| 0 <= q < at ==> !stands_at(s, p, q),
    ensures
        find(s, p) == Some(at),
{
    lemma_find_from(s, p, 0);
}

/// A marker is found behind a text that holds none of its characters.
proof fn lemma_found_behind(c: Seq<char>, m: char, n: nat, rest: Seq<char>)
    requires
        without(c, m),
        n > 0,
    ensures
        find(c + times(n, m) + rest, times(n, m)) == Some(c.len() as int),
        (c + times(n, m) + rest).take(c.len() as int) == c,
        (c + times(n, m) + rest).skip(c.len() as int + n) == rest,
{
    let s = c + times(n, m) + rest;
    let p = times(n, m);
    assert(s.subrange(c.len() as int, c.len() as int + n) =~= p);
    assert forall|q: int| 0 <= q < c.len() implies !stands_at(s, p, q) by {
        if stands_at(s, p, q) {
            assert(s.subrange(q, q + n)[0] == p[0]);
            assert(s[q] == c[q]);
        }
    }
    lemma_found(s, p, c.len() as int);
    assert(s.take(c.len() as int) =~= c);
    assert(s.skip(c.len() as int + n) =~= rest);
}

// ---- inline -----------------------------------------------------------------
/// Text that no construct can start in.
pub open spec fn unmarked(s: Seq<char>) -> bool {
    forall|i: int|
        0 <= i < s.len() ==> #[trigger] s[i] != '`' && s[i] != '[' && s[i] != '~' && s[i] != '*'
            && s[i] != '_'
}

proof fn lemma_no_construct(s: Seq<char>, p: Palette)
    requires
        s.len() > 0,
        s[0] != '`' && s[0] != '[' && s[0] != '~' && s[0] != '*' && s[0] != '_',
    ensures
        construct(s, p) is None,
{
    if stands_at(s, seq!['~', '~'], 0) {
        assert(s.subrange(0, 2)[0] == '~');
    }
    if stands_at(s, seq!['*', '*'], 0) {
        assert(s.subrange(0, 2)[0] == '*');
    }
    if stands_at(s, seq!['_', '_'], 0) {
        assert(s.subrange(0, 2)[0] == '_');
    }
}

/// Text in front in which nothing starts is kept for later.
proof fn lemma_unmarked_first(a: Seq<char>, rest: Seq<char>, plain: Seq<char>, p: Palette)
    requires
        unmarked(a),
    ensures
        crate::markdown::inline(a + rest, plain, p) == crate::markdown::inline(rest, plain + a, p),
    decreases a.len(),
{
    if a.len() == 0 {
        assert(a + rest =~= rest);
        assert(plain + a =~= plain);
    } else {
        let s = a + rest;
        assert(s[0] == a[0]);
        lemma_no_construct(s, p);
        assert(s.skip(1) =~= a.skip(1) + rest);
        assert(unmarked(a.skip(1))) by {
            assert forall|i: int| 0 <= i < a.skip(1).len() implies #[trigger] a.skip(1)[i] != '`'
                && a.skip(1)[i] != '[' && a.skip(1)[i] != '~' && a.skip(1)[i] != '*' && a.skip(1)[i]
                != '_' by {
                assert(a.skip(1)[i] == a[i + 1]);
            }
        }
        lemma_unmarked_first(a.skip(1), rest, plain.push(s[0]), p);
        assert(plain.push(s[0]) + a.skip(1) =~= plain + a);
    }
}

/// Text without a marker is one plain span, or none if there is no text.
pub proof fn unmarked_text_is_plain(a: Seq<char>, p: Palette)
    requires
        unmarked(a),
    ensures
        a.len() > 0 ==> crate::markdown::inline(a, Seq::empty(), p) == seq![raw(a)],
        a.len() == 0 ==> crate::markdown::inline(a, Seq::empty(), p).len() == 0,
{
    lemma_unmarked_first(a, Seq::empty(), Seq::empty(), p);
    assert(a + Seq::<char>::empty() =~= a);
    assert(Seq::<char>::empty() + a =~= a);
}

/// Inline text that starts with a construct goes on behind it.
proof fn lemma_construct_first(
    a: Seq<char>,
    written: Seq<char>,
    rest: Seq<char>,
    sp: SpanView,
    p: Palette,
)
    requires
        unmarked(a),
        a.len() > 0,
        written.len() > 0,
        construct(written + rest, p) == Some((sp, written.len() as int)),
    ensures
        crate::markdown::inline(a + written + rest, Seq::empty(), p) == seq![raw(a), sp] + crate::markdown::inline(
            rest,
            Seq::empty(),
            p,
        ),
{
    let x = written + rest;
    assert(a + written + rest =~= a + x);
    lemma_unmarked_first(a, x, Seq::empty(), p);
    assert(Seq::<char>::empty() + a =~= a);
    assert(x.skip(written.len() as int) =~= rest);
    assert(flushed(a).push(sp) =~= seq![raw(a), sp]);
}

/// Code between backticks, one or more on either side: what is between them, as
/// it is, in the colour of code.
pub proof fn code_is_what_is_between_backticks(
    a: Seq<char>,
    n: nat,
    c: Seq<char>,
    rest: Seq<char>,
    p: Palette,
)
    requires
        unmarked(a),
        a.len() > 0,
        n > 0,
        c.len() > 0,
        without(c, '`'),
        rest.len() == 0 || rest[0] != '`',
    ensures
        crate::markdown::inline(a + (times(n, '`') + c + times(n, '`')) + rest, Seq::empty(), p) == seq![
            raw(a),
            (SpanView { content: c, style: p.code() }),
        ] + crate::markdown::inline(rest, Seq::empty(), p),
{
    let ticks = times(n, '`');
    let written = ticks + c + ticks;
    let s = written + rest;
    let after = c + ticks + rest;
    assert(s =~= ticks + after);
    assert(after[0] == c[0]);
    lemma_run(n, '`', after);
    lemma_backticks(c, n, rest, 0);
    assert(after.take(c.len() as int) =~= c);
    assert(code_span(s) == Some((c, n + c.len() as int + n)));
    lemma_construct_first(a, written, rest, SpanView { content: c, style: p.code() }, p);
}

proof fn lemma_backticks(c: Seq<char>, n: nat, rest: Seq<char>, i: int)
    requires
        n > 0,
        without(c, '`'),
        0 <= i <= c.len(),
        rest.len() == 0 || rest[0] != '`',
    ensures
        backticks_from(c + times(n, '`') + rest, n, i) == Some(c.len() as int),
    decreases c.len() - i,
{
    let s = c + times(n, '`') + rest;
    if i < c.len() {
        assert(s[i] == c[i]);
        lemma_backticks(c, n, rest, i + 1);
    } else {
        assert(s[i] == '`');
        assert(s.skip(i) =~= times(n, '`') + rest);
        lemma_run(n, '`', rest);
    }
}

/// Text between double asterisks, or double underscores, is bold.
pub proof fn doubled_markers_make_bold(
    a: Seq<char>,
    m: char,
    c: Seq<char>,
    rest: Seq<char>,
    p: Palette,
)
    requires
        unmarked(a),
        a.len() > 0,
        m == '*' || m == '_',
        c.len() > 0,
        without(c, m),
    ensures
        crate::markdown::inline(a + (times(2, m) + c + times(2, m)) + rest, Seq::empty(), p) == seq![
            raw(a),
            (SpanView { content: c, style: Style { bold: true, ..plain_style() } }),
        ] + crate::markdown::inline(rest, Seq::empty(), p),
{
    let two = times(2, m);
    let written = two + c + two;
    let s = written + rest;
    assert(two =~= seq![m, m]);
    assert(s[0] == m && s[1] == m);
    assert(s.subrange(0, 2) =~= seq![m, m]);
    assert(s.skip(2) =~= c + two + rest);
    lemma_found_behind(c, m, 2, rest);
    if stands_at(s, seq!['~', '~'], 0) {
        assert(s.subrange(0, 2)[0] == '~');
    }
    if m == '_' && stands_at(s, seq!['*', '*'], 0) {
        assert(s.subrange(0, 2)[0] == '*');
    }
    let sp = SpanView { content: c, style: Style { bold: true, ..plain_style() } };
    assert(strong(s, m) == Some((c, c.len() as int + 4)));
    lemma_construct_first(a, written, rest, sp, p);
}

/// Text between single asterisks, or single underscores, is in italics.
pub proof fn single_markers_make_italics(
    a: Seq<char>,
    m: char,
    c: Seq<char>,
    rest: Seq<char>,
    p: Palette,
)
    requires
        unmarked(a),
        a.len() > 0,
        m == '*' || m == '_',
        c.len() > 0,
        without(c, m),
    ensures
        crate::markdown::inline(a + (times(1, m) + c + times(1, m)) + rest, Seq::empty(), p) == seq![
            raw(a),
            (SpanView { content: c, style: Style { italic: true, ..plain_style() } }),
        ] + crate::markdown::inline(rest, Seq::empty(), p),
{
    let one = times(1, m);
    let written = one + c + one;
    let s = written + rest;
    assert(one =~= seq![m]);
    assert(s[0] == m);
    assert(s[1] == c[0]);
    assert(s.skip(1) =~= c + one + rest);
    lemma_found_behind(c, m, 1, rest);
    if stands_at(s, seq!['~', '~'], 0) {
        assert(s.subrange(0, 2)[0] == '~');
    }
    if stands_at(s, seq!['*', '*'], 0) {
        assert(s.subrange(0, 2)[0] == '*');
        assert(s.subrange(0, 2)[1] == '*');
    }
    if stands_at(s, seq!['_', '_'], 0) {
        assert(s.subrange(0, 2)[0] == '_');
        assert(s.subrange(0, 2)[1] == '_');
    }
    let sp = SpanView { content: c, style: Style { italic: true, ..plain_style() } };
    assert(emphasis(s, m) == Some((c, c.len() as int + 2)));
    lemma_construct_first(a, written, rest, sp, p);
}

/// Text between two pairs of tildes is struck out.
pub proof fn tildes_strike_out(a: Seq<char>, c: Seq<char>, rest: Seq<char>, p: Palette)
    requires
        unmarked(a),
        a.len() > 0,
        c.len() > 0,
        without(c, '~'),
    ensures
        crate::markdown::inline(a + (times(2, '~') + c + times(2, '~')) + rest, Seq::empty(), p) == seq![
            raw(a),
            (SpanView { content: c, style: Style { crossed_out: true, ..plain_style() } }),
        ] + crate::markdown::inline(rest, Seq::empty(), p),
{
    let two = times(2, '~');
    let written = two + c + two;
    let s = written + rest;
    assert(two =~= seq!['~', '~']);
    assert(s[0] == '~' && s[1] == '~');
    assert(s[2] == c[0]);
    assert(s.subrange(0, 2) =~= seq!['~', '~']);
    assert(s.skip(2) =~= c + two + rest);
    lemma_found_behind(c, '~', 2, rest);
    let sp = SpanView { content: c, style: Style { crossed_out: true, ..plain_style() } };
    assert(strikethrough(s) == Some((c, c.len() as int + 4)));
    lemma_construct_first(a, written, rest, sp, p);
}

/// A link shows its text, underlined, and not where it leads.
pub proof fn a_link_shows_its_text(
    a: Seq<char>,
    t: Seq<char>,
    url: Seq<char>,
    rest: Seq<char>,
    p: Palette,
)
    requires
        unmarked(a),
        a.len() > 0,
        without(t, ']'),
        without(url, ')'),
    ensures
        crate::markdown::inline(a + (seq!['['] + t + seq![']', '('] + url + seq![')']) + rest, Seq::empty(), p)
            == seq![raw(a), (SpanView { content: t, style: p.link() })] + crate::markdown::inline(
            rest,
            Seq::empty(),
            p,
        ),
        p.link().underlined,
{
    let written = seq!['['] + t + seq![']', '('] + url + seq![')'];
    let s = written + rest;
    let close = 1 + t.len() as int;
    assert(s[0] == '[');
    assert(s.subrange(close, close + 1) =~= seq![']']);
    assert forall|q: int| 0 <= q < close implies !stands_at(s, seq![']'], q) by {
        if stands_at(s, seq![']'], q) {
            assert(s.subrange(q, q + 1)[0] == ']');
            if q > 0 {
                assert(s[q] == t[q - 1]);
            }
        }
    }
    lemma_found(s, seq![']'], close);
    let after = s.skip(close + 1);
    assert(after[0] == '(');
    let inner = after.skip(1);
    assert(inner =~= url + seq![')'] + rest);
    assert(seq![')'] =~= times(1, ')'));
    lemma_found_behind(url, ')', 1, rest);
    assert(s.subrange(1, close) =~= t);
    assert(link(s) == Some((t, close + url.len() + 3)));
    assert(run(s, '`') == 0);
    lemma_construct_first(a, written, rest, SpanView { content: t, style: p.link() }, p);
}

// ---- one line ---------------------------------------------------------------
/// A line by itself opens no fence and starts no table.
pub open spec fn plain_start(l: Seq<char>) -> bool {
    l.len() > 0 && !white(l[0]) && l[0] != '`' && l[0] != '~'
}

proof fn lemma_one_line(l: Seq<char>, p: Palette)
    requires
        without(l, '\n'),
        plain_start(l),
    ensures
        blocks(l, p) == seq![single_line(l, p)],
        trim_start(l) == l,
{
    a_text_without_newlines_is_one_line(l);
    let ls = seq![l];
    if stands_at(l, seq!['`', '`', '`'], 0) {
        assert(l.subrange(0, 3)[0] == '`');
    }
    if stands_at(l, seq!['~', '~', '~'], 0) {
        assert(l.subrange(0, 3)[0] == '~');
    }
    assert(blocks_from(ls, 1, None, p) =~= Seq::<LineView>::empty());
    assert(seq![single_line(l, p)] + Seq::<LineView>::empty() =~= seq![single_line(l, p)]);
}

/// One to six hashes, a space and a text make a heading: the text alone, bold, in
/// the accent for the first two levels, in the dimmer one for the third and in
/// the colour of the chrome below.
pub proof fn hashes_make_a_heading(n: nat, t: Seq<char>, p: Palette)
    requires
        1 <= n <= 6,
        tight(t),
        without(t, '\n'),
    ensures
        ({
            let out = blocks(times(n, '#') + seq![' '] + t, p);
            &&& out.len() == 1
            &&& out[0].spans == crate::markdown::inline(t, Seq::empty(), p)
            &&& out[0].style.bold
            &&& n <= 2 ==> out[0].style.fg == p.accent().fg
            &&& n == 3 ==> out[0].style.fg == p.accent_dim().fg
            &&& n >= 4 ==> out[0].style.fg == p.chrome().fg
        }),
{
    let rest = seq![' '] + t;
    let l = times(n, '#') + seq![' '] + t;
    assert(l =~= times(n, '#') + rest);
    assert(l[0] == '#');
    assert forall|i: int| 0 <= i < l.len() implies #[trigger] l[i] != '\n' by {
        if i > n {
            assert(l[i] == t[i - n - 1]);
        }
    }
    lemma_one_line(l, p);
    lemma_run(n, '#', rest);
    assert(l.last() == t.last());
    assert(trim(l) == l);
    assert(!thematic_break(l));
    assert(rest.skip(1) =~= t);
    assert(heading_text(l) == Some(t));
    assert(trim(t) == t);
}

/// More than six hashes make no heading: the line is read as it stands.
pub proof fn more_than_six_hashes_make_no_heading(n: nat, t: Seq<char>, p: Palette)
    requires
        n > 6,
        without(t, '\n'),
        t.len() == 0 || (t[0] != '#' && !white(t.last())),
    ensures
        ({
            let l = times(n, '#') + t;
            &&& blocks(l, p).len() == 1
            &&& blocks(l, p)[0] == LineView {
                spans: crate::markdown::inline(l, Seq::empty(), p),
                style: plain_style(),
            }
        }),
{
    let l = times(n, '#') + t;
    assert(l[0] == '#');
    assert forall|i: int| 0 <= i < l.len() implies #[trigger] l[i] != '\n' by {
        if i >= n {
            assert(l[i] == t[i - n]);
        }
    }
    lemma_one_line(l, p);
    lemma_run(n, '#', t);
    assert(!white(l.last())) by {
        if t.len() == 0 {
            assert(l.last() == '#');
        }
    }
    assert(trim(l) == l);
    assert(!thematic_break(l));
    lemma_not_led(l, '>');
    lemma_not_led(l, '-');
    lemma_not_led(l, '*');
    lemma_not_led(l, '+');
    assert(digits(l) == 0);
}

proof fn lemma_not_led(l: Seq<char>, m: char)
    requires
        l.len() > 0,
        l[0] != m,
    ensures
        after_lead(l, seq![m, ' ']) is None,
{
    if stands_at(l, seq![m, ' '], 0) {
        assert(l.subrange(0, 2)[0] == m);
    }
}

proof fn lemma_led(m: char, t: Seq<char>)
    ensures
        after_lead(seq![m, ' '] + t, seq![m, ' ']) == Some(t),
{
    let l = seq![m, ' '] + t;
    assert(l.subrange(0, 2) =~= seq![m, ' ']);
    assert(l.skip(2) =~= t);
}

/// A dash, an asterisk or a plus and a space make an item of a list: a bullet in
/// front of the text.
pub proof fn bullets_stand_for_list_markers(m: char, t: Seq<char>, p: Palette)
    requires
        m == '-' || m == '*' || m == '+',
        tight(t),
        without(t, '\n'),
        t[0] != m,
    ensures
        ({
            let out = blocks(seq![m, ' '] + t, p);
            &&& out.len() == 1
            &&& out[0].style == plain_style()
            &&& out[0].spans == seq![(SpanView { content: "• "@, style: p.chrome() })] + crate::markdown::inline(
                t,
                Seq::empty(),
                p,
            )
        }),
{
    let l = seq![m, ' '] + t;
    assert(l[0] == m);
    assert forall|i: int| 0 <= i < l.len() implies #[trigger] l[i] != '\n' by {
        if i >= 2 {
            assert(l[i] == t[i - 2]);
        }
    }
    lemma_one_line(l, p);
    assert(l.last() == t.last());
    assert(trim(l) == l);
    assert(l[2] == t[0]);
    assert(t[0] != ' ');
    assert(!thematic_break(l));
    assert(run(l, '#') == 0);
    lemma_not_led(l, '>');
    lemma_led(m, t);
    if m != '-' {
        lemma_not_led(l, '-');
        if m != '*' {
            lemma_not_led(l, '*');
        }
    }
}

/// Digits, a dot or a bracket, and a space make an item of a numbered list: the
/// number, a dot and the text.
pub proof fn numbers_stand_for_themselves(d: Seq<char>, sep: char, t: Seq<char>, p: Palette)
    requires
        d.len() > 0,
        forall|i: int| 0 <= i < d.len() ==> '0' <= #[trigger] d[i] <= '9',
        sep == '.' || sep == ')',
        tight(t),
        without(t, '\n'),
    ensures
        ({
            let out = blocks(d + seq![sep, ' '] + t, p);
            &&& out.len() == 1
            &&& out[0].style == plain_style()
            &&& out[0].spans == seq![
                (SpanView { content: d + seq!['.', ' '], style: p.chrome() }),
            ] + crate::markdown::inline(t, Seq::empty(), p)
        }),
{
    let after = seq![sep, ' '] + t;
    let l = d + seq![sep, ' '] + t;
    assert(l =~= d + after);
    assert(l[0] == d[0]);
    assert forall|i: int| 0 <= i < l.len() implies #[trigger] l[i] != '\n' by {
        if i < d.len() {
            assert(l[i] == d[i]);
        } else if i >= d.len() + 2 {
            assert(l[i] == t[i - d.len() - 2]);
        }
    }
    lemma_one_line(l, p);
    assert(l.last() == t.last());
    assert(trim(l) == l);
    assert(!thematic_break(l));
    assert(run(l, '#') == 0);
    lemma_not_led(l, '>');
    lemma_not_led(l, '-');
    lemma_not_led(l, '*');
    lemma_not_led(l, '+');
    lemma_digits(d, after);
    lemma_led(sep, t);
    if sep == ')' {
        lemma_not_led(after, '.');
    }
    assert(l.take(d.len() as int) =~= d);
    assert(ordered_item(l) == Some((d, t)));
}

proof fn lemma_digits(d: Seq<char>, rest: Seq<char>)
    requires
        forall|i: int| 0 <= i < d.len() ==> '0' <= #[trigger] d[i] <= '9',
        rest.len() > 0 && !('0' <= rest[0] <= '9'),
    ensures
        digits(d + rest) == d.len(),
        (d + rest).skip(d.len() as int) == rest,
    decreases d.len(),
{
    let s = d + rest;
    assert(s.skip(d.len() as int) =~= rest);
    if d.len() > 0 {
        assert(s[0] == d[0]);
        assert forall|i: int| 0 <= i < d.skip(1).len() implies '0' <= #[trigger] d.skip(1)[i] <= '9' by {
            assert(d.skip(1)[i] == d[i + 1]);
        }
        lemma_digits(d.skip(1), rest);
        assert(s.skip(1) =~= d.skip(1) + rest);
    } else {
        assert(s =~= rest);
    }
}

/// A greater-than sign and a space make a quotation: the text alone, in the
/// colour of the chrome.
pub proof fn quotations_are_set_back(t: Seq<char>, p: Palette)
    requires
        tight(t),
        without(t, '\n'),
    ensures
        blocks(seq!['>', ' '] + t, p) == seq![
            (LineView { spans: crate::markdown::inline(t, Seq::empty(), p), style: p.chrome() }),
        ],
{
    let l = seq!['>', ' '] + t;
    assert(l[0] == '>');
    assert forall|i: int| 0 <= i < l.len() implies #[trigger] l[i] != '\n' by {
        if i >= 2 {
            assert(l[i] == t[i - 2]);
        }
    }
    lemma_one_line(l, p);
    assert(l.last() == t.last());
    assert(trim(l) == l);
    assert(!thematic_break(l));
    assert(run(l, '#') == 0);
    lemma_led('>', t);
}

proof fn lemma_occurrences(n: nat, c: char)
    ensures
        occurrences(times(n, c), c) == n,
    decreases n,
{
    if n > 0 {
        lemma_occurrences((n - 1) as nat, c);
        assert(times(n, c).drop_last() =~= times((n - 1) as nat, c));
    }
}

/// Three or more dashes, asterisks or underscores are a rule of forty cells.
pub proof fn a_row_of_markers_is_a_rule(n: nat, m: char, p: Palette)
    requires
        n >= 3,
        m == '-' || m == '*' || m == '_',
    ensures
        ({
            let out = blocks(times(n, m), p);
            &&& out.len() == 1
            &&& out[0].spans.len() == 1
            &&& out[0].spans[0].content == times(40, '─')
            &&& out[0].style == p.chrome()
        }),
{
    let l = times(n, m);
    assert(l[0] == m);
    assert(l.last() == m);
    lemma_one_line(l, p);
    assert(trim(l) == l);
    lemma_occurrences(n, m);
    assert(thematic_break(l));
    assert(crate::text::repeat('\u{2500}', 40) =~= times(40, '─'));
}

/// Nothing is a blank line.
pub proof fn nothing_is_a_blank_line(p: Palette)
    ensures
        blocks(Seq::empty(), p) == seq![
            (LineView { spans: Seq::empty(), style: plain_style() }),
        ],
{
    let e = Seq::<char>::empty();
    a_text_without_newlines_is_one_line(e);
    let ls = seq![e];
    assert(trim_start(e) == e);
    assert(trim(e) == e);
    assert(run(e, '#') == 0);
    assert(digits(e) == 0);
    assert(blocks_from(ls, 1, None, p) =~= Seq::<LineView>::empty());
    assert(blocks(e, p) =~= seq![single_line(e, p)]);
}

/// A line that starts with a letter is a paragraph of its own: all of it, in no
/// style of its own.
pub proof fn a_line_that_starts_with_a_letter_is_a_paragraph(l: Seq<char>, p: Palette)
    requires
        l.len() > 0,
        'a' <= l[0] <= 'z' || 'A' <= l[0] <= 'Z',
        without(l, '\n'),
    ensures
        blocks(l, p) == seq![
            (LineView { spans: crate::markdown::inline(l, Seq::empty(), p), style: plain_style() }),
        ],
{
    lemma_one_line(l, p);
    lemma_trim_start(l);
    assert(run(l, '#') == 0);
    lemma_not_led(l, '>');
    lemma_not_led(l, '-');
    lemma_not_led(l, '*');
    lemma_not_led(l, '+');
    assert(digits(l) == 0);
}

proof fn lemma_trim_start(l: Seq<char>)
    requires
        l.len() > 0,
        !white(l[0]),
    ensures
        trim(l).len() > 0,
        trim(l)[0] == l[0],
{
    lemma_trim_end(l);
}

proof fn lemma_trim_end(l: Seq<char>)
    requires
        l.len() > 0,
        !white(l[0]),
    ensures
        trim_end(l).len() > 0,
        trim_end(l)[0] == l[0],
    decreases l.len(),
{
    if white(l.last()) {
        lemma_trim_end(l.drop_last());
    }
}

// ---- fenced code ------------------------------------------------------------
/// A line of markers alone, three or more: what closes a fence.
pub open spec fn all_markers(l: Seq<char>, m: char) -> bool {
    l.len() >= 3 && forall|k: int| 0 <= k < l.len() ==> #[trigger] l[k] == m
}

/// The lines between two fences are code, every one as it stands behind a bar,
/// whatever it holds but for a line of markers; the first fence opens the box and
/// names the language, the last closes it.
pub proof fn what_is_between_fences_is_code(
    lines: Seq<Seq<char>>,
    m: char,
    lang: Seq<char>,
    k: nat,
    n: int,
    p: Palette,
)
    requires
        m == '`' || m == '~',
        k >= 3,
        forall|i: int| 0 <= i < lang.len() ==> !white(#[trigger] lang[i]),
        lines.len() == n + 2,
        n >= 0,
        lines[0] == times(3, m) + lang,
        lines[n + 1] == times(k, m),
        forall|i: int| 1 <= i <= n ==> !all_markers(trim_start(#[trigger] lines[i]), m),
    ensures
        ({
            let out = blocks_from(lines, 0, None, p);
            &&& out.len() == n + 2
            &&& lang.len() == 0 ==> out[0] == LineView {
                spans: seq![raw("\u{250c}"@)],
                style: p.chrome(),
            }
            &&& lang.len() > 0 ==> out[0].spans == seq![
                (SpanView { content: "\u{250c} "@, style: p.chrome() }),
                (SpanView { content: lang, style: p.accent() }),
            ]
            &&& forall|i: int|
                1 <= i <= n ==> (#[trigger] out[i]).spans == seq![
                    (SpanView { content: "\u{2502} "@, style: p.chrome() }),
                    (SpanView { content: lines[i], style: p.code() }),
                ]
            &&& out[n + 1] == LineView { spans: seq![raw("\u{2514}"@)], style: p.chrome() }
        }),
{
    let f = times(3, m) + lang;
    assert(f[0] == m);
    assert(trim_start(f) == f);
    assert(f.subrange(0, 3) =~= seq![m, m, m]);
    if m == '~' && stands_at(f, seq!['`', '`', '`'], 0) {
        assert(f.subrange(0, 3)[0] == '`');
    }
    assert(f.skip(3) =~= lang);
    assert(trim_start(lang) == lang) by {
        if lang.len() > 0 {
            assert(!white(lang[0]));
        }
    }
    lemma_word(lang);
    lemma_fenced(lines, m, 1, k, n, p);
    let rest = blocks_from(lines, 1, Some(m), p);
    let out = blocks_from(lines, 0, None, p);
    assert forall|i: int| 1 <= i <= n implies (#[trigger] out[i]).spans == seq![
        (SpanView { content: "\u{2502} "@, style: p.chrome() }),
        (SpanView { content: lines[i], style: p.code() }),
    ] by {
        assert(out[i] == rest[i - 1]);
    }
    assert(out[n + 1] == rest[n]);
}

proof fn lemma_word(w: Seq<char>)
    requires
        forall|i: int| 0 <= i < w.len() ==> !white(#[trigger] w[i]),
    ensures
        word_prefix(w) == w,
    decreases w.len(),
{
    if w.len() > 0 {
        assert(!white(w[0]));
        assert forall|i: int| 0 <= i < w.skip(1).len() implies !white(#[trigger] w.skip(1)[i]) by {
            assert(w.skip(1)[i] == w[i + 1]);
        }
        lemma_word(w.skip(1));
        assert(seq![w[0]] + w.skip(1) =~= w);
    } else {
        assert(w =~= Seq::<char>::empty());
    }
}

proof fn lemma_fenced(lines: Seq<Seq<char>>, m: char, i: int, k: nat, n: int, p: Palette)
    requires
        m == '`' || m == '~',
        k >= 3,
        lines.len() == n + 2,
        1 <= i <= n + 1,
        lines[n + 1] == times(k, m),
        forall|j: int| 1 <= j <= n ==> !all_markers(trim_start(#[trigger] lines[j]), m),
    ensures
        ({
            let out = blocks_from(lines, i, Some(m), p);
            &&& out.len() == n + 2 - i
            &&& out[n + 1 - i] == LineView { spans: seq![raw("\u{2514}"@)], style: p.chrome() }
            &&& forall|j: int|
                i <= j <= n ==> (#[trigger] out[j - i]).spans == seq![
                    (SpanView { content: "\u{2502} "@, style: p.chrome() }),
                    (SpanView { content: lines[j], style: p.code() }),
                ]
        }),
    decreases n + 1 - i,
{
    let out = blocks_from(lines, i, Some(m), p);
    if i == n + 1 {
        let f = times(k, m);
        assert(f[0] == m);
        assert(trim_start(f) == f);
        assert(closes_fence(f, m));
        assert(blocks_from(lines, n + 2, None, p) =~= Seq::<LineView>::empty());
    } else {
        lemma_fenced(lines, m, i + 1, k, n, p);
        let rest = blocks_from(lines, i + 1, Some(m), p);
        assert(!all_markers(trim_start(lines[i]), m));
        assert(!closes_fence(trim_start(lines[i]), m));
        assert forall|j: int| i <= j <= n implies (#[trigger] out[j - i]).spans == seq![
            (SpanView { content: "\u{2502} "@, style: p.chrome() }),
            (SpanView { content: lines[j], style: p.code() }),
        ] by {
            if j > i {
                assert(out[j - i] == rest[j - (i + 1)]);
            }
        }
        assert(out[n + 1 - i] == rest[n + 1 - (i + 1)]);
    }
}

// ---- what is shown ----------------------------------------------------------
/// Reading inline text shows no more than is written.
pub proof fn inline_text_grows_no_longer(s: Seq<char>, plain: Seq<char>, p: Palette)
    ensures
        char_count(crate::markdown::inline(s, plain, p)) <= plain.len() + s.len(),
    decreases s.len(),
{
    reveal_with_fuel(char_count, 3);
    if s.len() == 0 {
        assert(flushed(plain).len() <= 1);
        if plain.len() > 0 {
            assert(flushed(plain).drop_last() =~= Seq::<SpanView>::empty());
        }
    } else {
        match construct(s, p) {
            Some((sp, n)) => {
                lemma_construct_size(s, p);
                let front = flushed(plain).push(sp);
                assert(front.drop_last() =~= flushed(plain));
                if plain.len() > 0 {
                    assert(flushed(plain).drop_last() =~= Seq::<SpanView>::empty());
                }
                assert(char_count(front) == plain.len() + sp.content.len());
                inline_text_grows_no_longer(s.skip(n), Seq::empty(), p);
                lemma_count_adds(front, crate::markdown::inline(s.skip(n), Seq::empty(), p));
            },
            None => {
                inline_text_grows_no_longer(s.skip(1), plain.push(s[0]), p);
            },
        }
    }
}

proof fn lemma_count_adds(a: Seq<SpanView>, b: Seq<SpanView>)
    ensures
        char_count(a + b) == char_count(a) + char_count(b),
    decreases b.len(),
{
    if b.len() == 0 {
        assert(a + b =~= a);
    } else {
        lemma_count_adds(a, b.drop_last());
        assert((a + b).drop_last() =~= a + b.drop_last());
    }
}

proof fn lemma_construct_size(s: Seq<char>, p: Palette)
    requires
        construct(s, p) is Some,
    ensures
        ({
            let (sp, n) = construct(s, p)->0;
            sp.content.len() < n <= s.len()
        }),
{
    let n = run(s, '`');
    crate::markdown::lemma_run_bound(s, '`');
    if code_span(s) is Some {
        lemma_backticks_bound(s.skip(n as int), n, 0);
    } else if link(s) is Some {
        lemma_find_from(s, seq![']'], 0);
        let close = find(s, seq![']'])->0;
        lemma_find_from(s.skip(close + 1).skip(1), seq![')'], 0);
    } else if strikethrough(s) is Some {
        lemma_find_from(s.skip(2), seq!['~', '~'], 0);
    } else if strong(s, '*') is Some {
        lemma_find_from(s.skip(2), seq!['*', '*'], 0);
    } else if strong(s, '_') is Some {
        lemma_find_from(s.skip(2), seq!['_', '_'], 0);
    } else if emphasis(s, '*') is Some {
        lemma_find_from(s.skip(1), seq!['*'], 0);
    } else {
        lemma_find_from(s.skip(1), seq!['_'], 0);
    }
}

proof fn lemma_backticks_bound(s: Seq<char>, n: nat, i: int)
    requires
        0 <= i,
    ensures
        backticks_from(s, n, i) matches Some(at) ==> i <= at && at + n <= s.len(),
    decreases s.len() - i,
{
    if i < s.len() {
        if s[i] == '`' {
            let r = run(s.skip(i), '`');
            crate::markdown::lemma_run_bound(s.skip(i), '`');
            if r != n {
                lemma_backticks_bound(s, n, i + r);
            }
        } else {
            lemma_backticks_bound(s, n, i + 1);
        }
    }
}

// ---- tables -----------------------------------------------------------------
/// A cell as it is written: no white space around it, no bar or backslash in it.
pub open spec fn plain_cell(c: Seq<char>) -> bool {
    &&& c.len() > 0
    &&& !white(c[0])
    &&& !white(c.last())
    &&& without(c, '|')
    &&& without(c, '\\')
}

/// Cells written as a row of a table: every one between two spaces, a bar behind
/// it, and a bar in front of the first.
pub open spec fn written_row(cells: Seq<Seq<char>>) -> Seq<char>
    decreases cells.len(),
{
    if cells.len() == 0 {
        seq!['|']
    } else {
        written_row(cells.drop_last()) + seq![' '] + cells.last() + seq![' ', '|']
    }
}

proof fn lemma_cell_text(c: Seq<char>, rest: Seq<char>, cur: Seq<char>)
    requires
        without(c, '|'),
        without(c, '\\'),
    ensures
        cells_from(c + rest, cur) == cells_from(rest, cur + c),
    decreases c.len(),
{
    if c.len() == 0 {
        assert(c + rest =~= rest);
        assert(cur + c =~= cur);
    } else {
        let s = c + rest;
        assert(s[0] == c[0]);
        assert(c[0] != '|' && c[0] != '\\');
        assert(s.skip(1) =~= c.skip(1) + rest);
        assert forall|i: int| 0 <= i < c.skip(1).len() implies #[trigger] c.skip(1)[i] != '|' && c.skip(
            1,
        )[i] != '\\' by {
            assert(c.skip(1)[i] == c[i + 1]);
        }
        lemma_cell_text(c.skip(1), rest, cur.push(c[0]));
        assert(cur.push(c[0]) + c.skip(1) =~= cur + c);
    }
}

proof fn lemma_padded_cell(c: Seq<char>)
    requires
        plain_cell(c),
    ensures
        trim(seq![' '] + c + seq![' ']) == c,
{
    reveal_with_fuel(trim_end, 3);
    reveal_with_fuel(trim_start, 3);
    let s = seq![' '] + c + seq![' '];
    assert(s.drop_last() =~= seq![' '] + c);
    assert(s.skip(1) =~= c + seq![' ']);
    assert((c + seq![' ']).drop_last() =~= c);
    assert((seq![' '] + c).skip(1) =~= c);
    assert((seq![' '] + c).last() == c.last());
    assert((c + seq![' '])[0] == c[0]);
}

/// The cells between the first bar and the last.
spec fn inner_row(cells: Seq<Seq<char>>) -> Seq<char>
    decreases cells.len(),
{
    if cells.len() == 0 {
        Seq::empty()
    } else if cells.len() == 1 {
        seq![' '] + cells[0] + seq![' ']
    } else {
        seq![' '] + cells[0] + seq![' ', '|'] + inner_row(cells.skip(1))
    }
}

proof fn lemma_inner_row(cells: Seq<Seq<char>>)
    requires
        cells.len() > 0,
        forall|i: int| 0 <= i < cells.len() ==> plain_cell(#[trigger] cells[i]),
    ensures
        cells_from(inner_row(cells), Seq::empty()) == cells,
    decreases cells.len(),
{
    let e = Seq::<char>::empty();
    let c = cells[0];
    let padded = seq![' '] + c + seq![' '];
    assert(plain_cell(c));
    lemma_padded_cell(c);
    assert forall|i: int| 0 <= i < padded.len() implies #[trigger] padded[i] != '|' && padded[i]
        != '\\' by {
        if 1 <= i <= c.len() {
            assert(padded[i] == c[i - 1]);
        }
    }
    if cells.len() == 1 {
        lemma_cell_text(padded, e, e);
        assert(padded + e =~= padded);
        assert(e + padded =~= padded);
        assert(seq![c] =~= cells);
    } else {
        let tail = inner_row(cells.skip(1));
        let rest = seq!['|'] + tail;
        assert forall|i: int| 0 <= i < cells.skip(1).len() implies plain_cell(
            #[trigger] cells.skip(1)[i],
        ) by {
            assert(cells.skip(1)[i] == cells[i + 1]);
        }
        lemma_inner_row(cells.skip(1));
        assert(inner_row(cells) =~= padded + rest);
        lemma_cell_text(padded, rest, e);
        assert(e + padded =~= padded);
        assert(rest.skip(1) =~= tail);
        assert(seq![c] + cells.skip(1) =~= cells);
    }
}

proof fn lemma_written_row(cells: Seq<Seq<char>>)
    requires
        cells.len() > 0,
    ensures
        written_row(cells) == seq!['|'] + inner_row(cells) + seq!['|'],
    decreases cells.len(),
{
    reveal_with_fuel(written_row, 2);
    if cells.len() == 1 {
        assert(cells.last() == cells[0]);
        assert(written_row(cells) =~= seq!['|'] + inner_row(cells) + seq!['|']);
    } else {
        let front = cells.drop_last();
        lemma_written_row(front);
        lemma_inner_last(cells);
        assert(written_row(cells) =~= seq!['|'] + inner_row(cells) + seq!['|']);
    }
}

proof fn lemma_inner_last(cells: Seq<Seq<char>>)
    requires
        cells.len() > 1,
    ensures
        inner_row(cells) == inner_row(cells.drop_last()) + seq!['|', ' '] + cells.last() + seq![
            ' ',
        ],
    decreases cells.len(),
{
    reveal_with_fuel(inner_row, 2);
    let front = cells.drop_last();
    if cells.len() == 2 {
        assert(cells.skip(1)[0] == cells.last());
        assert(front[0] == cells[0]);
        assert(inner_row(cells) =~= inner_row(front) + seq!['|', ' '] + cells.last() + seq![' ']);
    } else {
        let t = cells.skip(1);
        lemma_inner_last(t);
        assert(t.drop_last() =~= front.skip(1));
        assert(t.last() == cells.last());
        assert(front[0] == cells[0]);
        assert(inner_row(cells) =~= inner_row(front) + seq!['|', ' '] + cells.last() + seq![' ']);
    }
}

/// The cells of a written row are the cells that were written.
pub proof fn a_row_gives_back_its_cells(cells: Seq<Seq<char>>)
    requires
        cells.len() > 0,
        forall|i: int| 0 <= i < cells.len() ==> plain_cell(#[trigger] cells[i]),
    ensures
        row_cells(written_row(cells)) == cells,
{
    let l = written_row(cells);
    lemma_written_row(cells);
    let inner = inner_row(cells);
    assert(l[0] == '|');
    assert(l.last() == '|');
    assert(trim_start(l) == l);
    assert(trim(l) == l);
    assert(l.skip(1) =~= inner + seq!['|']);
    assert((inner + seq!['|']).drop_last() =~= inner);
    lemma_inner_row(cells);
}

/// A bar behind a backslash does not end its cell.
pub proof fn an_escaped_bar_stays_in_its_cell(a: Seq<char>, b: Seq<char>)
    requires
        plain_cell(a),
        plain_cell(b),
    ensures
        row_cells(a + seq!['\\', '|'] + b) == seq![a + seq!['|'] + b],
{
    let l = a + seq!['\\', '|'] + b;
    let e = Seq::<char>::empty();
    assert(a[0] != '|');
    assert(b[b.len() - 1] != '|');
    assert(l[0] == a[0]);
    assert(l.last() == b.last());
    assert(trim(l) == l);
    let rest = seq!['\\', '|'] + b;
    assert(l =~= a + rest);
    lemma_cell_text(a, rest, e);
    assert(e + a =~= a);
    assert(rest.skip(2) =~= b);
    lemma_cell_text(b, e, a.push('|'));
    assert(b + e =~= b);
    let cell = a + seq!['|'] + b;
    assert(a.push('|') + b =~= cell);
    assert(cell[0] == a[0]);
    assert(cell.last() == b.last());
    assert(trim(cell) == cell);
}

/// How many characters a line shows.
pub open spec fn shown(l: LineView) -> nat {
    char_count(l.spans)
}

proof fn lemma_width(header: Seq<Seq<char>>, rows: Seq<Seq<Seq<char>>>, c: int, n: nat)
    requires
        0 <= c < header.len(),
        n <= rows.len(),
    ensures
        header[c].len() <= column_width(header, rows, c, n),
        forall|r: int|
            0 <= r < n && c < (#[trigger] rows[r]).len() ==> rows[r][c].len() <= column_width(
                header,
                rows,
                c,
                n,
            ),
        column_width(header, rows, c, n) == header[c].len() || exists|r: int|
            0 <= r < n && c < (#[trigger] rows[r]).len() && rows[r][c].len() == column_width(
                header,
                rows,
                c,
                n,
            ),
    decreases n,
{
    if n > 0 {
        lemma_width(header, rows, c, (n - 1) as nat);
        let row = rows[n - 1];
        let w = column_width(header, rows, c, (n - 1) as nat);
        if c < row.len() && row[c].len() > w {
            assert(rows[n - 1][c].len() == column_width(header, rows, c, n));
        }
    }
}

proof fn lemma_cell_shown(cell: Seq<char>, w: nat, header: bool, p: Palette)
    requires
        cell.len() <= w,
    ensures
        char_count(cell_spans(cell, w, header, p)) == w,
{
    reveal_with_fuel(char_count, 3);
    let body = if header {
        seq![
            crate::styled::span(cell, Style { bold: true, ..p.accent() }),
        ]
    } else {
        crate::markdown::inline(cell, Seq::empty(), p)
    };
    if header {
        assert(body.drop_last() =~= Seq::<SpanView>::empty());
        assert(char_count(body) == cell.len());
    } else {
        inline_text_grows_no_longer(cell, Seq::empty(), p);
    }
    let used = char_count(body);
    if used < w {
        let fill = raw(crate::text::repeat(' ', (w - used) as nat));
        assert(body.push(fill).drop_last() =~= body);
    }
}

/// The widths of some columns with what stands between them.
pub open spec fn whole_width(widths: Seq<nat>, n: nat) -> nat
    decreases n,
{
    if n == 0 {
        1
    } else {
        whole_width(widths, (n - 1) as nat) + widths[n - 1] + 3
    }
}

proof fn lemma_row_shown(
    cells: Seq<Seq<char>>,
    widths: Seq<nat>,
    header: bool,
    p: Palette,
    n: nat,
)
    requires
        n <= widths.len(),
        forall|c: int|
            0 <= c < n && c < cells.len() ==> (#[trigger] cells[c]).len() <= widths[c],
    ensures
        char_count(row_part(cells, widths, header, p, n)) == whole_width(widths, n),
    decreases n,
{
    reveal_with_fuel(char_count, 3);
    reveal_strlit("\u{2502}");
    reveal_strlit(" ");
    if n == 0 {
        let one = row_part(cells, widths, header, p, n);
        assert(one.drop_last() =~= Seq::<SpanView>::empty());
    } else {
        let c = n - 1;
        lemma_row_shown(cells, widths, header, p, (n - 1) as nat);
        let cell = if c < cells.len() {
            cells[c]
        } else {
            Seq::empty()
        };
        lemma_cell_shown(cell, widths[c], header, p);
        let a = row_part(cells, widths, header, p, (n - 1) as nat);
        let b = seq![crate::styled::span(" "@, p.chrome())];
        let d = cell_spans(cell, widths[c], header, p);
        let e = seq![
            crate::styled::span(" "@, p.chrome()),
            crate::styled::span("\u{2502}"@, p.chrome()),
        ];
        assert(b.drop_last() =~= Seq::<SpanView>::empty());
        assert(e.drop_last().drop_last() =~= Seq::<SpanView>::empty());
        assert(char_count(e) == 2);
        lemma_count_adds(a, b);
        lemma_count_adds(a + b, d);
        lemma_count_adds(a + b + d, e);
    }
}

proof fn lemma_border_shown(widths: Seq<nat>, mid: char, n: nat)
    requires
        n <= widths.len(),
    ensures
        n > 0 ==> border_part(widths, mid, n).len() + 2 == whole_width(widths, n),
        n == 0 ==> border_part(widths, mid, n).len() == 0,
    decreases n,
{
    if n > 0 {
        lemma_border_shown(widths, mid, (n - 1) as nat);
        if n == 1 {
            assert(whole_width(widths, 0) == 1);
        }
    }
}

/// All lines of a table are equally wide: the borders, the header and the rows,
/// each column as wide as its longest cell. Between every two rows and around
/// them stands a border.
pub proof fn a_table_is_a_box(header: Seq<Seq<char>>, rows: Seq<Seq<Seq<char>>>, p: Palette)
    requires
        header.len() > 0,
    ensures
        ({
            let out = table_lines(header, rows, p);
            let w = whole_width(column_widths(header, rows), header.len());
            &&& out.len() == (if rows.len() == 0 {
                4nat
            } else {
                2 * rows.len() + 3
            })
            &&& forall|i: int| 0 <= i < out.len() ==> shown(#[trigger] out[i]) == w
        }),
        forall|c: int|
            0 <= c < header.len() ==> {
                let w = #[trigger] column_widths(header, rows)[c];
                &&& header[c].len() <= w
                &&& forall|r: int|
                    0 <= r < rows.len() && c < (#[trigger] rows[r]).len() ==> rows[r][c].len() <= w
                &&& w == header[c].len() || exists|r: int|
                    0 <= r < rows.len() && c < (#[trigger] rows[r]).len() && rows[r][c].len() == w
            },
{
    let widths = column_widths(header, rows);
    let w = whole_width(widths, header.len());
    assert forall|c: int| 0 <= c < header.len() implies {
        let w = #[trigger] column_widths(header, rows)[c];
        &&& header[c].len() <= w
        &&& forall|r: int|
            0 <= r < rows.len() && c < (#[trigger] rows[r]).len() ==> rows[r][c].len() <= w
        &&& w == header[c].len() || exists|r: int|
            0 <= r < rows.len() && c < (#[trigger] rows[r]).len() && rows[r][c].len() == w
    } by {
        lemma_width(header, rows, c, rows.len());
    }
    lemma_border_line(widths, '\u{250c}', '\u{252c}', '\u{2510}', p);
    lemma_border_line(widths, '\u{251c}', '\u{253c}', '\u{2524}', p);
    lemma_border_line(widths, '\u{2514}', '\u{2534}', '\u{2518}', p);
    assert forall|c: int| 0 <= c < header.len() && c < header.len() implies (
    #[trigger] header[c]).len() <= widths[c] by {
        assert(column_widths(header, rows)[c] == widths[c]);
    }
    lemma_row_shown(header, widths, true, p, header.len());
    lemma_body_shown(header, rows, p, rows.len());
    let out = table_lines(header, rows, p);
    let body = table_body(rows, widths, p, rows.len());
    assert forall|i: int| 0 <= i < out.len() implies shown(#[trigger] out[i]) == w by {
        if 3 <= i < 3 + body.len() {
            assert(out[i] == body[i - 3]);
        }
    }
}

proof fn lemma_border_line(widths: Seq<nat>, l: char, m: char, r: char, p: Palette)
    requires
        widths.len() > 0,
    ensures
        shown(crate::styled::styled_line(border(widths, l, m, r), p.chrome())) == whole_width(
            widths,
            widths.len(),
        ),
{
    reveal_with_fuel(char_count, 3);
    lemma_border_shown(widths, m, widths.len());
    let spans = seq![raw(border(widths, l, m, r))];
    assert(spans.drop_last() =~= Seq::<SpanView>::empty());
}

proof fn lemma_body_shown(
    header: Seq<Seq<char>>,
    rows: Seq<Seq<Seq<char>>>,
    p: Palette,
    n: nat,
)
    requires
        header.len() > 0,
        n <= rows.len(),
    ensures
        ({
            let widths = column_widths(header, rows);
            let body = table_body(rows, widths, p, n);
            &&& body.len() == (if n == 0 {
                0int
            } else {
                2 * n - 1
            })
            &&& forall|i: int|
                0 <= i < body.len() ==> shown(#[trigger] body[i]) == whole_width(
                    widths,
                    header.len(),
                )
        }),
    decreases n,
{
    if n > 0 {
        let widths = column_widths(header, rows);
        lemma_body_shown(header, rows, p, (n - 1) as nat);
        let before = table_body(rows, widths, p, (n - 1) as nat);
        let body = table_body(rows, widths, p, n);
        lemma_border_line(widths, '\u{251c}', '\u{253c}', '\u{2524}', p);
        let row = rows[n - 1];
        assert forall|c: int| 0 <= c < widths.len() && c < row.len() implies (
        #[trigger] row[c]).len() <= widths[c] by {
            lemma_width(header, rows, c, rows.len());
            assert(rows[n - 1][c].len() <= column_width(header, rows, c, rows.len()));
        }
        lemma_row_shown(row, widths, false, p, widths.len());
        assert forall|i: int| 0 <= i < body.len() implies shown(#[trigger] body[i]) == whole_width(
            widths,
            header.len(),
        ) by {
            if i < before.len() {
                assert(body[i] == before[i]);
            }
        }
    }
}

/// A row of cells of dashes under the header makes the lines up to the first that
/// holds no bar a table of the written cells.
pub proof fn written_rows_make_a_table(
    header: Seq<Seq<char>>,
    dashes: Seq<Seq<char>>,
    rows: Seq<Seq<Seq<char>>>,
    p: Palette,
)
    requires
        header.len() > 0,
        dashes.len() == header.len(),
        forall|i: int| 0 <= i < header.len() ==> plain_cell(#[trigger] header[i]),
        forall|i: int|
            0 <= i < dashes.len() ==> (#[trigger] dashes[i]).len() > 0 && all_dashes(dashes[i]),
        forall|r: int| 0 <= r < rows.len() ==> (#[trigger] rows[r]).len() > 0,
        forall|r: int, i: int|
            0 <= r < rows.len() && 0 <= i < rows[r].len() ==> plain_cell(#[trigger] rows[r][i]),
    ensures
        blocks_from(
            seq![written_row(header), written_row(dashes)] + rows.map_values(
                |cells: Seq<Seq<char>>| written_row(cells),
            ),
            0,
            None,
            p,
        ) == table_lines(header, rows, p),
{
    let written = rows.map_values(|cells: Seq<Seq<char>>| written_row(cells));
    let lines = seq![written_row(header), written_row(dashes)] + written;
    assert forall|i: int| 0 <= i < dashes.len() implies plain_cell(#[trigger] dashes[i]) by {
        assert(all_dashes(dashes[i]));
        assert(dashes[i][0] == '-');
        assert(dashes[i][dashes[i].len() - 1] == '-');
    }
    lemma_row_line(header);
    lemma_row_line(dashes);
    let l = lines[0];
    if stands_at(l, seq!['`', '`', '`'], 0) {
        assert(l.subrange(0, 3)[0] == '`');
    }
    if stands_at(l, seq!['~', '~', '~'], 0) {
        assert(l.subrange(0, 3)[0] == '~');
    }
    assert(delimiter_row(dashes)) by {
        assert forall|i: int| 0 <= i < dashes.len() implies delimiter_cell(#[trigger] dashes[i]) by {
            let d = dashes[i];
            assert(plain_cell(d));
            assert(trim(d) == d);
            assert(all_dashes(d));
            assert(d[0] == '-');
        }
    }
    assert(lines[1] == written_row(dashes));
    assert(table_at(lines, 0));
    lemma_rows_end(header, dashes, rows, 0);
    let e = table_end(lines, 2);
    assert(e == lines.len());
    let got = rows_between(lines, 2, e);
    assert(got =~= rows) by {
        assert forall|r: int| 0 <= r < rows.len() implies got[r] == rows[r] by {
            assert(rows[r].len() > 0);
            assert forall|i: int| 0 <= i < rows[r].len() implies plain_cell(
                #[trigger] rows[r][i],
            ) by {}
            a_row_gives_back_its_cells(rows[r]);
            assert(lines[2 + r] == written_row(rows[r]));
        }
    }
    assert(blocks_from(lines, e, None, p) =~= Seq::<LineView>::empty());
    assert(table_lines(header, rows, p) + Seq::<LineView>::empty() =~= table_lines(
        header,
        rows,
        p,
    ));
}

/// Nothing but dashes.
pub open spec fn all_dashes(c: Seq<char>) -> bool {
    forall|i: int| 0 <= i < c.len() ==> #[trigger] c[i] == '-'
}

proof fn lemma_row_line(cells: Seq<Seq<char>>)
    requires
        cells.len() > 0,
        forall|i: int| 0 <= i < cells.len() ==> plain_cell(#[trigger] cells[i]),
    ensures
        written_row(cells).len() > 0,
        written_row(cells)[0] == '|',
        trim_start(written_row(cells)) == written_row(cells),
        trim(written_row(cells)) == written_row(cells),
        written_row(cells).contains('|'),
        row_cells(written_row(cells)) == cells,
{
    lemma_written_row(cells);
    a_row_gives_back_its_cells(cells);
    let l = written_row(cells);
    assert(l[0] == '|');
    assert(l.last() == '|');
}

proof fn lemma_rows_end(
    header: Seq<Seq<char>>,
    dashes: Seq<Seq<char>>,
    rows: Seq<Seq<Seq<char>>>,
    r: int,
)
    requires
        0 <= r <= rows.len(),
        forall|r: int| 0 <= r < rows.len() ==> (#[trigger] rows[r]).len() > 0,
        forall|r: int, i: int|
            0 <= r < rows.len() && 0 <= i < rows[r].len() ==> plain_cell(#[trigger] rows[r][i]),
    ensures
        ({
            let lines = seq![written_row(header), written_row(dashes)] + rows.map_values(
                |cells: Seq<Seq<char>>| written_row(cells),
            );
            table_end(lines, 2 + r) == lines.len()
        }),
    decreases rows.len() - r,
{
    let lines = seq![written_row(header), written_row(dashes)] + rows.map_values(
        |cells: Seq<Seq<char>>| written_row(cells),
    );
    if r < rows.len() {
        lemma_rows_end(header, dashes, rows, r + 1);
        assert(rows[r].len() > 0);
        assert forall|i: int| 0 <= i < rows[r].len() implies plain_cell(#[trigger] rows[r][i]) by {}
        lemma_row_line(rows[r]);
        assert(lines[2 + r] == written_row(rows[r]));
    }
}

/// What the spans say one behind the other.
pub open spec fn told(spans: Seq<SpanView>) -> Seq<char>
    decreases spans.len(),
{
    if spans.len() == 0 {
        Seq::empty()
    } else {
        told(spans.drop_last()) + spans.last().content
    }
}

proof fn lemma_told_adds(a: Seq<SpanView>, b: Seq<SpanView>)
    ensures
        told(a + b) == told(a) + told(b),
    decreases b.len(),
{
    if b.len() == 0 {
        assert(a + b =~= a);
        assert(told(a) + told(b) =~= told(a));
    } else {
        lemma_told_adds(a, b.drop_last());
        assert((a + b).drop_last() =~= a + b.drop_last());
        assert(told(a) + (told(b.drop_last()) + b.last().content) =~= told(a) + told(b.drop_last())
            + b.last().content);
    }
}

proof fn lemma_told_one(sp: SpanView)
    ensures
        told(seq![sp]) == sp.content,
{
    reveal_with_fuel(told, 2);
    assert(seq![sp].drop_last() =~= Seq::<SpanView>::empty());
    assert(Seq::<char>::empty() + sp.content =~= sp.content);
}

proof fn lemma_cell_told(cell: Seq<char>, w: nat, header: bool, p: Palette)
    requires
        unmarked(cell),
        cell.len() <= w,
    ensures
        told(cell_spans(cell, w, header, p)) == cell + times((w - cell.len()) as nat, ' '),
{
    reveal_with_fuel(char_count, 2);
    unmarked_text_is_plain(cell, p);
    let look = crate::styled::span(cell, Style { bold: true, ..p.accent() });
    lemma_told_one(look);
    lemma_told_one(raw(cell));
    let body = if header {
        seq![look]
    } else {
        crate::markdown::inline(cell, Seq::empty(), p)
    };
    if body.len() > 0 {
        assert(body.drop_last() =~= Seq::<SpanView>::empty());
    }
    assert(told(body) =~= cell);
    assert(char_count(body) == cell.len());
    let gap = (w - cell.len()) as nat;
    let fill = crate::text::repeat(' ', gap);
    assert(fill =~= times(gap, ' '));
    if cell.len() < w {
        assert(body.push(raw(fill)).drop_last() =~= body);
    } else {
        assert(cell + times(gap, ' ') =~= cell);
    }
}

/// The text of a row: every cell, filled up with spaces to the width of its
/// column, between two bars; a cell that the row lacks is all spaces.
pub proof fn a_row_tells_its_cells(
    cells: Seq<Seq<char>>,
    widths: Seq<nat>,
    header: bool,
    p: Palette,
    n: nat,
)
    requires
        0 < n <= widths.len(),
        forall|c: int| 0 <= c < cells.len() ==> unmarked(#[trigger] cells[c]),
        forall|c: int|
            0 <= c < n && c < cells.len() ==> (#[trigger] cells[c]).len() <= widths[c],
    ensures
        told(row_part(cells, widths, header, p, 0)) == seq!['\u{2502}'],
        ({
            let c = n - 1;
            let cell = if c < cells.len() {
                cells[c]
            } else {
                Seq::empty()
            };
            told(row_part(cells, widths, header, p, n)) == told(
                row_part(cells, widths, header, p, (n - 1) as nat),
            ) + (seq![' '] + cell + times((widths[c] - cell.len()) as nat, ' ') + seq![
                ' ',
                '\u{2502}',
            ])
        }),
{
    reveal_strlit("\u{2502}");
    reveal_strlit(" ");
    let space = crate::styled::span(" "@, p.chrome());
    let bar = crate::styled::span("\u{2502}"@, p.chrome());
    lemma_told_one(space);
    lemma_told_one(bar);
    assert(" "@ =~= seq![' ']);
    assert("\u{2502}"@ =~= seq!['\u{2502}']);
    let c = n - 1;
    let cell = if c < cells.len() {
        cells[c]
    } else {
        Seq::empty()
    };
    let gap = times((widths[c] - cell.len()) as nat, ' ');
    let a = row_part(cells, widths, header, p, (n - 1) as nat);
    let d = cell_spans(cell, widths[c], header, p);
    lemma_cell_told(cell, widths[c], header, p);
    lemma_told_adds(seq![space], seq![bar]);
    assert(seq![space] + seq![bar] =~= seq![space, bar]);
    lemma_told_adds(a, seq![space]);
    lemma_told_adds(a + seq![space], d);
    lemma_told_adds(a + seq![space] + d, seq![space, bar]);
    assert(told(a) + seq![' '] + (cell + gap) + (seq![' '] + seq!['\u{2502}']) =~= told(a) + (seq![
        ' ',
    ] + cell + gap + seq![' ', '\u{2502}']));
}

// ---- more of the same -------------------------------------------------------
/// White space alone.
pub open spec fn spaces(a: Seq<char>) -> bool {
    forall|i: int| 0 <= i < a.len() ==> #[trigger] a[i] == ' '
}

proof fn lemma_indent(a: Seq<char>, l: Seq<char>)
    requires
        spaces(a),
        l.len() == 0 || !white(l[0]),
    ensures
        trim_start(a + l) == l,
        trim(a + l) == trim(l),
    decreases a.len(),
{
    if a.len() == 0 {
        assert(a + l =~= l);
    } else {
        assert(a[0] == ' ');
        assert((a + l).skip(1) =~= a.skip(1) + l);
        assert forall|i: int| 0 <= i < a.skip(1).len() implies #[trigger] a.skip(1)[i] == ' ' by {
            assert(a.skip(1)[i] == a[i + 1]);
        }
        lemma_indent(a.skip(1), l);
        assert(trim_start(l) == l);
    }
}

proof fn lemma_indented_line(a: Seq<char>, l: Seq<char>, p: Palette)
    requires
        spaces(a),
        without(l, '\n'),
        plain_start(l),
    ensures
        blocks(a + l, p) == seq![single_line(a + l, p)],
        trim_start(a + l) == l,
        trim(a + l) == trim(l),
{
    let x = a + l;
    lemma_indent(a, l);
    assert forall|i: int| 0 <= i < x.len() implies #[trigger] x[i] != '\n' by {
        if i < a.len() {
            assert(a[i] == ' ');
        } else {
            assert(x[i] == l[i - a.len()]);
        }
    }
    a_text_without_newlines_is_one_line(x);
    if stands_at(l, seq!['`', '`', '`'], 0) {
        assert(l.subrange(0, 3)[0] == '`');
    }
    if stands_at(l, seq!['~', '~', '~'], 0) {
        assert(l.subrange(0, 3)[0] == '~');
    }
    let ls = seq![x];
    assert(blocks_from(ls, 1, None, p) =~= Seq::<LineView>::empty());
    assert(seq![single_line(x, p)] + Seq::<LineView>::empty() =~= seq![single_line(x, p)]);
}

/// An item of a list and a quotation may be set in, by any number of spaces.
pub proof fn items_may_be_set_in(a: Seq<char>, m: char, t: Seq<char>, p: Palette)
    requires
        spaces(a),
        m == '-' || m == '*' || m == '+' || m == '>',
        tight(t),
        without(t, '\n'),
        t[0] != m,
    ensures
        blocks(a + (seq![m, ' '] + t), p) == blocks(seq![m, ' '] + t, p),
{
    let l = seq![m, ' '] + t;
    assert(l[0] == m);
    assert forall|i: int| 0 <= i < l.len() implies #[trigger] l[i] != '\n' by {
        if i >= 2 {
            assert(l[i] == t[i - 2]);
        }
    }
    lemma_indented_line(a, l, p);
    lemma_one_line(l, p);
    assert(l.last() == t.last());
    assert(trim(l) == l);
    assert(l[2] == t[0]);
    assert(run(l, '#') == 0);
    assert(!thematic_break(l));
    lemma_led(m, t);
    if m != '>' {
        lemma_not_led(l, '>');
        if m != '-' {
            lemma_not_led(l, '-');
        }
    }
}

/// A numbered item may be set in as well.
pub proof fn numbers_may_be_set_in(a: Seq<char>, d: char, t: Seq<char>, p: Palette)
    requires
        spaces(a),
        '0' <= d <= '9',
        tight(t),
        without(t, '\n'),
    ensures
        blocks(a + (seq![d] + seq!['.', ' '] + t), p) == blocks(seq![d] + seq!['.', ' '] + t, p),
{
    let l = seq![d] + seq!['.', ' '] + t;
    assert(l[0] == d);
    assert forall|i: int| 0 <= i < l.len() implies #[trigger] l[i] != '\n' by {
        if i >= 3 {
            assert(l[i] == t[i - 3]);
        }
    }
    lemma_indented_line(a, l, p);
    lemma_one_line(l, p);
    assert(l.last() == t.last());
    assert(trim(l) == l);
    assert(!thematic_break(l));
    assert(run(l, '#') == 0);
    lemma_not_led(l, '>');
    lemma_not_led(l, '-');
    lemma_not_led(l, '*');
    lemma_not_led(l, '+');
    let after = seq!['.', ' '] + t;
    assert(l =~= seq![d] + after);
    lemma_digits(seq![d], after);
    lemma_led('.', t);
}

/// Markers of a rule may stand apart.
pub proof fn markers_of_a_rule_may_stand_apart(l: Seq<char>, m: char, p: Palette)
    requires
        m == '-' || m == '*' || m == '_',
        l.len() >= 3,
        l[0] == m,
        l.last() == m,
        forall|i: int| 0 <= i < l.len() ==> #[trigger] l[i] == m || l[i] == ' ',
        occurrences(l, m) >= 3,
    ensures
        blocks(l, p).len() == 1,
        blocks(l, p)[0].spans == seq![raw(times(40, '─'))],
{
    assert forall|i: int| 0 <= i < l.len() implies #[trigger] l[i] != '\n' by {}
    lemma_one_line(l, p);
    assert(trim(l) == l);
    assert(thematic_break(l));
    assert(crate::text::repeat('\u{2500}', 40) =~= times(40, '─'));
}

/// Two markers alone are no rule.
pub proof fn two_markers_are_no_rule(m: char, p: Palette)
    requires
        m == '-',
    ensures
        blocks(times(2, m), p) == seq![
            (LineView {
                spans: crate::markdown::inline(times(2, m), Seq::empty(), p),
                style: plain_style(),
            }),
        ],
{
    let l = times(2, m);
    assert(l[0] == m && l[1] == m);
    lemma_one_line(l, p);
    assert(trim(l) == l);
    lemma_occurrences(2, m);
    assert(!thematic_break(l));
    assert(run(l, '#') == 0);
    lemma_not_led(l, '>');
    lemma_not_led(l, '*');
    lemma_not_led(l, '+');
    if stands_at(l, seq![m, ' '], 0) {
        assert(l.subrange(0, 2)[1] == ' ');
    }
    assert(digits(l) == 0);
}

/// Hashes without a space behind them make no heading.
pub proof fn hashes_need_a_space(n: nat, t: Seq<char>, p: Palette)
    requires
        1 <= n,
        tight(t),
        t[0] != '#',
        without(t, '\n'),
    ensures
        blocks(times(n, '#') + t, p) == seq![
            (LineView {
                spans: crate::markdown::inline(times(n, '#') + t, Seq::empty(), p),
                style: plain_style(),
            }),
        ],
{
    let l = times(n, '#') + t;
    assert(l[0] == '#');
    assert forall|i: int| 0 <= i < l.len() implies #[trigger] l[i] != '\n' by {
        if i >= n {
            assert(l[i] == t[i - n]);
        }
    }
    lemma_one_line(l, p);
    lemma_run(n, '#', t);
    assert(l.last() == t.last());
    assert(trim(l) == l);
    assert(!thematic_break(l));
    lemma_not_led(l, '>');
    lemma_not_led(l, '-');
    lemma_not_led(l, '*');
    lemma_not_led(l, '+');
    assert(digits(l) == 0);
    assert(t[0] != ' ');
}

/// A marker without its other half is plain text.
pub proof fn a_marker_alone_is_plain(m: char, c: Seq<char>, p: Palette)
    requires
        m == '*' || m == '_' || m == '`' || m == '[' || m == '~',
        unmarked(c),
        without(c, ']') || m != '[',
    ensures
        crate::markdown::inline(seq![m] + c, Seq::empty(), p) == seq![raw(seq![m] + c)],
{
    let s = seq![m] + c;
    assert(s.skip(1) =~= c);
    assert forall|i: int| 1 <= i < s.len() implies #[trigger] s[i] != m by {
        assert(s[i] == c[i - 1]);
    }
    assert(construct(s, p) is None) by {
        if m == '`' {
            assert(c.len() == 0 || c[0] != '`');
            lemma_run(1, '`', c);
            assert(times(1, '`') + c =~= s);
            lemma_no_backticks(c, 1, 0);
        } else {
            assert(run(s, '`') == 0);
        }
        if m == '[' {
            lemma_find_from(s, seq![']'], 0);
            if find(s, seq![']']) is Some {
                let at = find(s, seq![']'])->0;
                assert(s.subrange(at, at + 1)[0] == ']');
                assert(s[at] == ']');
                assert(c[at - 1] == ']');
            }
        }
        if stands_at(s, seq!['~', '~'], 0) {
            assert(s.subrange(0, 2)[1] == '~');
            assert(s[1] == '~');
        }
        if stands_at(s, seq!['*', '*'], 0) {
            assert(s.subrange(0, 2)[1] == '*');
            assert(s[1] == '*');
        }
        if stands_at(s, seq!['_', '_'], 0) {
            assert(s.subrange(0, 2)[1] == '_');
            assert(s[1] == '_');
        }
        lemma_find_from(c, seq![m], 0);
        if find(c, seq![m]) is Some {
            let at = find(c, seq![m])->0;
            assert(c.subrange(at, at + 1)[0] == m);
            assert(c[at] == m);
        }
    }
    let e = Seq::<char>::empty();
    lemma_unmarked_first(c, e, e.push(m), p);
    assert(c + e =~= c);
    assert(e.push(m) + c =~= s);
}

proof fn lemma_no_backticks(c: Seq<char>, n: nat, i: int)
    requires
        0 <= i,
        without(c, '`'),
    ensures
        backticks_from(c, n, i) is None,
    decreases c.len() - i,
{
    if i < c.len() {
        assert(c[i] != '`');
        lemma_no_backticks(c, n, i + 1);
    }
}

/// A table goes on over every line with a bar in it, wherever the bar stands, and
/// ends before a line without one.
pub proof fn how_far_a_table_goes(lines: Seq<Seq<char>>, i: int, e: int)
    requires
        0 <= i <= e <= lines.len(),
        forall|k: int|
            i <= k < e ==> tight(#[trigger] lines[k]) && lines[k].contains('|'),
        e < lines.len() ==> without(lines[e], '|'),
    ensures
        table_end(lines, i) == e,
    decreases e - i,
{
    if i < e {
        assert(tight(lines[i]));
        assert(trim(lines[i]) == lines[i]);
        how_far_a_table_goes(lines, i + 1, e);
    } else if e < lines.len() {
        lemma_trim_holds_no_bar(lines[e]);
    }
}

proof fn lemma_trim_holds_no_bar(l: Seq<char>)
    requires
        without(l, '|'),
    ensures
        !trim(l).contains('|'),
{
    lemma_trim_start_part(l);
    let s = trim_start(l);
    lemma_trim_end_part(s);
}

proof fn lemma_trim_start_part(l: Seq<char>)
    requires
        without(l, '|'),
    ensures
        without(trim_start(l), '|'),
    decreases l.len(),
{
    if l.len() > 0 && white(l[0]) {
        assert forall|i: int| 0 <= i < l.skip(1).len() implies #[trigger] l.skip(1)[i] != '|' by {
            assert(l.skip(1)[i] == l[i + 1]);
        }
        lemma_trim_start_part(l.skip(1));
    }
}

proof fn lemma_trim_end_part(l: Seq<char>)
    requires
        without(l, '|'),
    ensures
        without(trim_end(l), '|'),
        !trim_end(l).contains('|'),
    decreases l.len(),
{
    if l.len() > 0 && white(l.last()) {
        assert forall|i: int| 0 <= i < l.drop_last().len() implies #[trigger] l.drop_last()[i]
            != '|' by {
            assert(l.drop_last()[i] == l[i]);
        }
        lemma_trim_end_part(l.drop_last());
    }
}

/// A row under the header makes a table where its cells are dashes, with colons or
/// without, and nothing else.
pub proof fn what_stands_under_a_header(c: Seq<char>)
    requires
        tight(c),
    ensures
        delimiter_cell(c) <==> (c.contains('-') && forall|i: int|
            0 <= i < c.len() ==> #[trigger] c[i] == '-' || c[i] == ':'),
{
    assert(trim(c) == c);
}

/// The cells of a row without bars at its ends are those between its bars.
pub proof fn bars_at_the_ends_may_be_left_out(a: Seq<char>, b: Seq<char>)
    requires
        plain_cell(a),
        plain_cell(b),
    ensures
        row_cells(a + seq![' ', '|', ' '] + b) == seq![a, b],
{
    let l = a + seq![' ', '|', ' '] + b;
    let e = Seq::<char>::empty();
    assert(a[0] != '|');
    assert(b[b.len() - 1] != '|');
    assert(l[0] == a[0]);
    assert(l.last() == b.last());
    assert(trim(l) == l);
    let first = a + seq![' '];
    let second = seq![' '] + b;
    assert(l =~= first + (seq!['|'] + second));
    assert forall|i: int| 0 <= i < first.len() implies #[trigger] first[i] != '|' && first[i]
        != '\\' by {
        if i < a.len() {
            assert(first[i] == a[i]);
        }
    }
    assert forall|i: int| 0 <= i < second.len() implies #[trigger] second[i] != '|' && second[i]
        != '\\' by {
        if i > 0 {
            assert(second[i] == b[i - 1]);
        }
    }
    lemma_cell_text(first, seq!['|'] + second, e);
    assert(e + first =~= first);
    assert((seq!['|'] + second).skip(1) =~= second);
    lemma_cell_text(second, e, e);
    assert(second + e =~= second);
    assert(e + second =~= second);
    reveal_with_fuel(trim_end, 2);
    reveal_with_fuel(trim_start, 2);
    assert(first.drop_last() =~= a);
    assert(first[0] == a[0]);
    assert(trim(first) == a);
    assert(second.skip(1) =~= b);
    assert(second.last() == b.last());
    assert(trim(second) == b);
    assert(seq![a] + seq![b] =~= seq![a, b]);
}

} // verus!
