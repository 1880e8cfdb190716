//! What the texts of a session rest on: numbers, padding, white space, lines,
//! order and paths.
use crate::paths::{
    next_slash,
    part_spans,
    parts_le,
    path_from,
    path_join,
    path_parts,
    path_spans,
    place_name,
    same_place,
    texts_at,
};
use crate::text::{
    decimal,
    lemma_split_nonempty,
    lines,
    pad_left,
    pad_right,
    same_but_case,
    split,
    text_le,
    trim,
    trim_end,
    trim_start,
    white,
};
use vstd::prelude::*;
use vstd::string::*;

verus! {

// ---- numbers ----------------------------------------------------------------
/// What digits amount to.
pub open spec fn amount(d: Seq<char>) -> int
    decreases d.len(),
{
    if d.len() == 0 {
        0
    } else {
        10 * amount(d.drop_last()) + (d.last() as int - '0' as int)
    }
}

/// A number is written in digits that amount to it, with no nought in front of
/// another digit.
pub proof fn digits_amount_to_the_number(n: nat)
    ensures
        amount(decimal(n)) == n,
        decimal(n).len() > 0,
        forall|i: int| 0 <= i < decimal(n).len() ==> '0' <= #[trigger] decimal(n)[i] <= '9',
        n > 0 ==> decimal(n)[0] != '0',
    decreases n,
{
    reveal_with_fuel(amount, 2);
    if n >= 10 {
        digits_amount_to_the_number(n / 10);
        assert(decimal(n).drop_last() =~= decimal(n / 10));
        assert(decimal(n)[0] == decimal(n / 10)[0]);
    } else {
        assert(decimal(n).drop_last() =~= Seq::<char>::empty());
    }
}

// ---- padding ----------------------------------------------------------------
/// A text is filled up with spaces behind it, or before it, to the width, and left
/// alone where it is wide enough.
pub proof fn padding_fills_with_spaces(s: Seq<char>, n: nat)
    ensures
        pad_right(s, n).len() == (if s.len() < n {
            n
        } else {
            s.len()
        }),
        pad_right(s, n).take(s.len() as int) == s,
        forall|i: int| s.len() <= i < pad_right(s, n).len() ==> #[trigger] pad_right(s, n)[i] == ' ',
        pad_left(s, n).len() == pad_right(s, n).len(),
        pad_left(s, n).skip(pad_left(s, n).len() - s.len()) == s,
        forall|i: int|
            0 <= i < pad_left(s, n).len() - s.len() ==> #[trigger] pad_left(s, n)[i] == ' ',
{
    assert(pad_right(s, n).take(s.len() as int) =~= s);
    assert(pad_left(s, n).skip(pad_left(s, n).len() - s.len()) =~= s);
}

// ---- white space ------------------------------------------------------------
/// White space alone.
pub open spec fn blank(s: Seq<char>) -> bool {
    forall|i: int| 0 <= i < s.len() ==> white(#[trigger] s[i])
}

/// Space, tab, newline and carriage return are white space; letters, digits and
/// the signs that commands are written with are not.
pub proof fn what_is_white(c: char)
    ensures
        white(' ') && white('\t') && white('\n') && white('\r'),
        '!' <= c <= '~' ==> !white(c),
{
}

proof fn lemma_trim_start(a: Seq<char>, s: Seq<char>)
    requires
        blank(a),
        s.len() == 0 || !white(s[0]),
    ensures
        trim_start(a + s) == s,
    decreases a.len(),
{
    if a.len() == 0 {
        assert(a + s =~= s);
    } else {
        assert(white(a[0]));
        assert((a + s).skip(1) =~= a.skip(1) + s);
        assert forall|i: int| 0 <= i < a.skip(1).len() implies white(#[trigger] a.skip(1)[i]) by {
            assert(a.skip(1)[i] == a[i + 1]);
        }
        lemma_trim_start(a.skip(1), s);
    }
}

proof fn lemma_trim_end(s: Seq<char>, b: Seq<char>)
    requires
        blank(b),
        s.len() == 0 || !white(s.last()),
    ensures
        trim_end(s + b) == s,
    decreases b.len(),
{
    if b.len() == 0 {
        assert(s + b =~= s);
    } else {
        assert(white(b[b.len() - 1]));
        assert((s + b).drop_last() =~= s + b.drop_last());
        assert forall|i: int| 0 <= i < b.drop_last().len() implies white(
            #[trigger] b.drop_last()[i],
        ) by {
            assert(b.drop_last()[i] == b[i]);
        }
        lemma_trim_end(s, b.drop_last());
    }
}

/// Trimming takes the white space away at both ends, and nothing else.
pub proof fn trimming_takes_the_white_space(a: Seq<char>, s: Seq<char>, b: Seq<char>)
    requires
        blank(a),
        blank(b),
        s.len() > 0,
        !white(s[0]),
        !white(s.last()),
    ensures
        trim(a + s + b) == s,
        trim_start(a + s + b) == s + b,
        trim_end(a + s + b) == a + s,
{
    assert(a + s + b =~= a + (s + b));
    assert((s + b)[0] == s[0]);
    lemma_trim_start(a, s + b);
    lemma_trim_end(s, b);
    assert((a + s).last() == s.last());
    lemma_trim_end(a + s, b);
}

/// Of white space nothing is left.
pub proof fn nothing_is_left_of_white_space(s: Seq<char>)
    requires
        blank(s),
    ensures
        trim(s).len() == 0,
{
    lemma_trim_start(s, Seq::empty());
    assert(s + Seq::<char>::empty() =~= s);
}

// ---- pieces -----------------------------------------------------------------
/// Pieces with a separator between every two.
pub open spec fn joined(v: Seq<Seq<char>>, sep: char) -> Seq<char>
    decreases v.len(),
{
    if v.len() == 0 {
        Seq::empty()
    } else if v.len() == 1 {
        v[0]
    } else {
        joined(v.drop_last(), sep).push(sep) + v.last()
    }
}

/// No piece holds a separator, and the pieces joined are the text.
pub proof fn pieces_make_up_the_text(s: Seq<char>, sep: char)
    ensures
        joined(split(s, sep), sep) == s,
        forall|i: int, k: int|
            0 <= i < split(s, sep).len() && 0 <= k < split(s, sep)[i].len()
                ==> #[trigger] split(s, sep)[i][k] != sep,
    decreases s.len(),
{
    let v = split(s, sep);
    if s.len() == 0 {
        assert(s =~= Seq::<char>::empty());
    } else {
        let t = s.drop_last();
        let before = split(t, sep);
        pieces_make_up_the_text(t, sep);
        lemma_split_nonempty(t, sep);
        assert(t.push(s.last()) =~= s);
        if s.last() == sep {
            assert(v.drop_last() =~= before);
            assert(joined(v, sep) =~= s);
            assert forall|i: int, k: int|
                0 <= i < v.len() && 0 <= k < v[i].len() implies #[trigger] v[i][k] != sep by {
                if i < before.len() {
                    assert(v[i][k] == before[i][k]);
                }
            }
        } else {
            assert(v.drop_last() =~= before.drop_last());
            assert(v.last() == before.last().push(s.last()));
            if before.len() == 1 {
                assert(joined(before, sep) == before[0]);
                assert(joined(v, sep) =~= s);
            } else {
                assert(joined(v, sep) =~= joined(before.drop_last(), sep).push(sep) + before.last()
                    + seq![s.last()]);
                assert(joined(v, sep) =~= s);
            }
            assert forall|i: int, k: int|
                0 <= i < v.len() && 0 <= k < v[i].len() implies #[trigger] v[i][k] != sep by {
                if i < before.len() - 1 {
                    assert(v[i][k] == before[i][k]);
                } else if k < before.last().len() {
                    assert(v[i][k] == before[before.len() - 1][k]);
                }
            }
        }
    }
}

/// A newline at the end of a text ends its last line and begins none; a carriage
/// return before a newline belongs to the end of the line.
pub proof fn lines_end_in_newlines(s: Seq<char>, l: Seq<char>)
    requires
        forall|i: int| 0 <= i < l.len() ==> #[trigger] l[i] != '\n',
        l.len() == 0 || l.last() != '\r',
    ensures
        lines(l) == (if l.len() == 0 {
            Seq::empty()
        } else {
            seq![l]
        }),
        lines(l.push('\n')) == seq![l],
        lines(l.push('\r').push('\n')) == seq![l],
        lines(l.push('\n') + s) == seq![l] + lines(s),
{
    crate::markup::a_text_without_newlines_is_one_line(l);
    crate::markup::a_newline_ends_a_line(l, Seq::empty());
    crate::markup::a_newline_ends_a_line(l, s);
    lemma_split_nonempty(s, '\n');
    let e = Seq::<char>::empty();
    assert(l.push('\n') + e =~= l.push('\n'));
    assert(split(e, '\n') =~= seq![e]);
    assert(split(l, '\n').drop_last() =~= Seq::<Seq<char>>::empty());
    assert(split(l.push('\n'), '\n').drop_last() =~= seq![l]);
    assert(lines(l.push('\n')) =~= seq![l]);
    assert(lines(l) =~= (if l.len() == 0 {
        Seq::empty()
    } else {
        seq![l]
    }));
    let r = l.push('\r');
    assert forall|i: int| 0 <= i < r.len() implies #[trigger] r[i] != '\n' by {
        if i < l.len() {
            assert(r[i] == l[i]);
        }
    }
    crate::markup::a_text_without_newlines_is_one_line(r);
    crate::markup::a_newline_ends_a_line(r, e);
    assert(r.push('\n') + e =~= r.push('\n'));
    assert(split(r.push('\n'), '\n').drop_last() =~= seq![r]);
    assert(r.drop_last() =~= l);
    assert(lines(r.push('\n')) =~= seq![l]);
    let whole = split(l.push('\n') + s, '\n');
    assert(whole =~= seq![l] + split(s, '\n'));
    assert(whole.last() == split(s, '\n').last());
    assert(whole.drop_last() =~= seq![l] + split(s, '\n').drop_last());
    assert(lines(l.push('\n') + s) =~= seq![l] + lines(s));
}

// ---- order ------------------------------------------------------------------
/// Of two texts the one comes first that has the smaller character where they
/// first differ, or that ends first.
pub proof fn texts_are_in_order(a: Seq<char>, b: Seq<char>, k: int)
    requires
        0 <= k <= a.len(),
        k <= b.len(),
        a.take(k) == b.take(k),
        k == a.len() || k == b.len() || a[k] != b[k],
    ensures
        text_le(a, b) <==> (k == a.len() || (k < b.len() && a[k] < b[k])),
    decreases k,
{
    if k > 0 {
        assert(a[0] == a.take(k)[0] && b[0] == b.take(k)[0]);
        assert(a.skip(1).take(k - 1) =~= a.take(k).skip(1));
        assert(b.skip(1).take(k - 1) =~= b.take(k).skip(1));
        if k < a.len() && k < b.len() {
            assert(a.skip(1)[k - 1] == a[k]);
            assert(b.skip(1)[k - 1] == b[k]);
        }
        texts_are_in_order(a.skip(1), b.skip(1), k - 1);
    }
}

/// Texts that differ in the case of English letters are taken for the same, and
/// those that differ in anything else are not.
pub proof fn case_does_not_matter(a: char, b: char)
    ensures
        same_but_case(seq!['Q', 'u', 'I', 't'], seq!['q', 'u', 'i', 't']),
        same_but_case(seq![a], seq![b]) <==> (a == b || ('a' <= a <= 'z' && a as int - b as int
            == 32) || ('A' <= a <= 'Z' && b as int - a as int == 32)),
{
    let x = seq![a];
    let y = seq![b];
    if same_but_case(x, y) {
        assert(crate::text::ascii_lower(x[0]) == crate::text::ascii_lower(y[0]));
    }
}

// ---- paths ------------------------------------------------------------------
/// A name in a path.
pub open spec fn plain_name(n: Seq<char>) -> bool {
    &&& n.len() > 0
    &&& n != seq!['.']
    &&& forall|i: int| 0 <= i < n.len() ==> #[trigger] n[i] != '/'
}

/// Names with a slash between every two.
pub open spec fn slashed(names: Seq<Seq<char>>) -> Seq<char>
    decreases names.len(),
{
    if names.len() == 0 {
        Seq::empty()
    } else if names.len() == 1 {
        names[0]
    } else {
        names[0] + seq!['/'] + slashed(names.skip(1))
    }
}

proof fn lemma_next_slash_at(p: Seq<char>, i: int, j: int)
    requires
        0 <= i <= j <= p.len(),
        forall|k: int| i <= k < j ==> #[trigger] p[k] != '/',
        j < p.len() ==> p[j] == '/',
    ensures
        next_slash(p, i) == j,
    decreases j - i,
{
    if i < j {
        assert(p[i] != '/');
        lemma_next_slash_at(p, i + 1, j);
    }
}

/// Where the names stand that are written from `i` on.
spec fn name_spans(names: Seq<Seq<char>>, i: int) -> Seq<(int, int)>
    decreases names.len(),
{
    if names.len() == 0 {
        Seq::empty()
    } else {
        seq![(i, i + names[0].len())] + name_spans(names.skip(1), i + names[0].len() + 1)
    }
}

/// A path that goes on with names goes on with their spans.
proof fn lemma_name_spans(p: Seq<char>, i: int, names: Seq<Seq<char>>, rest: Seq<char>)
    requires
        0 <= i <= p.len(),
        names.len() > 0,
        forall|k: int| 0 <= k < names.len() ==> plain_name(#[trigger] names[k]),
        p.skip(i) == slashed(names) + rest,
        rest.len() == 0 || rest[0] == '/',
    ensures
        part_spans(p, i) == name_spans(names, i) + part_spans(p, i + slashed(names).len() + 1),
        texts_at(p, name_spans(names, i)) == names,
    decreases names.len(),
{
    let n = names[0];
    let j = i + n.len();
    let whole = slashed(names) + rest;
    assert(plain_name(n));
    assert(slashed(names).len() >= n.len()) by {
        reveal_with_fuel(slashed, 2);
    }
    assert forall|k: int| i <= k < j implies #[trigger] p[k] != '/' by {
        assert(p[k] == p.skip(i)[k - i]);
        assert(whole[k - i] == n[k - i]);
    }
    if j < p.len() {
        assert(p[j] == p.skip(i)[j - i]);
    }
    assert(p.skip(i).len() == p.len() - i);
    lemma_next_slash_at(p, i, j);
    assert(p.subrange(i, j) =~= n) by {
        assert forall|k: int| 0 <= k < n.len() implies p.subrange(i, j)[k] == n[k] by {
            assert(p[i + k] == p.skip(i)[k]);
            assert(whole[k] == n[k]);
        }
    }
    if i > 0 && j == i + 1 && p[i] == '.' {
        assert(n =~= seq!['.']);
    }
    if names.len() == 1 {
        assert(name_spans(names.skip(1), j + 1) =~= Seq::<(int, int)>::empty());
        assert(name_spans(names, i) =~= seq![(i, j)]);
        assert(texts_at(p, name_spans(names, i)) =~= names);
    } else {
        let more = names.skip(1);
        assert forall|k: int| 0 <= k < more.len() implies plain_name(#[trigger] more[k]) by {
            assert(more[k] == names[k + 1]);
        }
        assert(p.skip(j + 1) =~= slashed(more) + rest) by {
            assert(p.skip(j + 1) =~= p.skip(i).skip(n.len() + 1 as int));
            assert((n + seq!['/'] + slashed(more) + rest).skip(n.len() + 1 as int) =~= slashed(more)
                + rest);
        }
        lemma_name_spans(p, j + 1, more, rest);
        assert(part_spans(p, i) =~= name_spans(names, i) + part_spans(
            p,
            i + slashed(names).len() + 1,
        ));
        let tail = name_spans(more, j + 1);
        assert(texts_at(p, name_spans(names, i)) =~= seq![n] + texts_at(p, tail));
        assert(seq![n] + more =~= names);
    }
}

/// The parts of a path are the names between its slashes, and the root where it
/// starts with one; a slash at the end changes nothing.
pub proof fn the_parts_of_a_path_are_its_names(names: Seq<Seq<char>>)
    requires
        names.len() > 0,
        forall|k: int| 0 <= k < names.len() ==> plain_name(#[trigger] names[k]),
    ensures
        path_parts(slashed(names)) == names,
        path_parts(seq!['/'] + slashed(names)) == seq![seq!['/']] + names,
        same_place(slashed(names).push('/'), slashed(names)),
        place_name(slashed(names)) == names.last() || names.last() == seq!['.', '.'],
        place_name(seq!['/'] + slashed(names)) == names.last() || names.last() == seq!['.', '.'],
{
    let e = Seq::<char>::empty();
    let p = slashed(names);
    lemma_starts_plain(names);
    assert(p.skip(0) =~= p + e);
    lemma_name_spans(p, 0, names, e);
    assert(part_spans(p, p.len() + 1 as int) =~= Seq::<(int, int)>::empty());
    assert(path_spans(p) =~= name_spans(names, 0));
    let q = seq!['/'] + p;
    assert(q.skip(1) =~= p + e);
    lemma_name_spans(q, 1, names, e);
    assert(part_spans(q, 1 + p.len() as int + 1) =~= Seq::<(int, int)>::empty());
    assert(path_spans(q) =~= seq![(0int, 1int)] + name_spans(names, 1));
    assert(q.subrange(0, 1) =~= seq!['/']);
    assert(path_parts(q) =~= seq![seq!['/']] + texts_at(q, name_spans(names, 1)));
    let r = p.push('/');
    assert(r.skip(0) =~= p + seq!['/']);
    assert(r[0] == p[0]);
    lemma_name_spans(r, 0, names, seq!['/']);
    assert(part_spans(r, p.len() + 1 as int) =~= Seq::<(int, int)>::empty());
    assert(path_spans(r) =~= name_spans(names, 0));
    let last = names[names.len() - 1];
    assert(plain_name(last));
    assert(last != seq!['/']) by {
        assert(last[0] != '/');
    }
    assert((seq![seq!['/']] + names).last() == last);
}

proof fn lemma_starts_plain(names: Seq<Seq<char>>)
    requires
        names.len() > 0,
        forall|k: int| 0 <= k < names.len() ==> plain_name(#[trigger] names[k]),
    ensures
        slashed(names).len() > 0,
        slashed(names)[0] != '/',
        slashed(names).last() != '/',
    decreases names.len(),
{
    assert(plain_name(names[0]));
    assert(names[0][0] != '/');
    if names.len() == 1 {
        assert(names[0][names[0].len() - 1] != '/');
    } else {
        let more = names.skip(1);
        assert forall|k: int| 0 <= k < more.len() implies plain_name(#[trigger] more[k]) by {
            assert(more[k] == names[k + 1]);
        }
        lemma_starts_plain(more);
        assert(slashed(names).last() == slashed(more).last());
    }
}

/// A path below another, seen from there, is what was put behind it.
pub proof fn a_path_seen_from_its_base(a: Seq<Seq<char>>, b: Seq<Seq<char>>)
    requires
        a.len() > 0,
        b.len() > 0,
        forall|k: int| 0 <= k < a.len() ==> plain_name(#[trigger] a[k]),
        forall|k: int| 0 <= k < b.len() ==> plain_name(#[trigger] b[k]),
    ensures
        ({
            let base = seq!['/'] + slashed(a);
            let rest = slashed(b);
            &&& path_join(base, rest) == base + seq!['/'] + rest
            &&& path_parts(path_join(base, rest)) == seq![seq!['/']] + a + b
            &&& path_from(path_join(base, rest), base) == rest
            &&& path_join(base, seq!['/'] + rest) == seq!['/'] + rest
        }),
{
    let base = seq!['/'] + slashed(a);
    let rest = slashed(b);
    lemma_starts_plain(a);
    lemma_starts_plain(b);
    assert(base.last() == slashed(a).last());
    assert((seq!['/'] + rest)[0] == '/');
    let p = base + seq!['/'] + rest;
    the_parts_of_a_path_are_its_names(a);
    assert(p.skip(1) =~= slashed(a) + (seq!['/'] + rest));
    lemma_name_spans(p, 1, a, seq!['/'] + rest);
    let at = 1 + slashed(a).len() + 1 as int;
    assert(p.skip(at) =~= rest + Seq::<char>::empty());
    lemma_name_spans(p, at, b, Seq::empty());
    assert(part_spans(p, at + rest.len() + 1) =~= Seq::<(int, int)>::empty());
    let first = seq![(0int, 1int)] + name_spans(a, 1);
    assert(path_spans(p) =~= first + name_spans(b, at));
    assert(p.subrange(0, 1) =~= seq!['/']);
    assert(texts_at(p, first) =~= seq![seq!['/']] + a);
    assert(texts_at(p, path_spans(p)) =~= texts_at(p, first) + texts_at(p, name_spans(b, at)));
    assert(path_parts(p) =~= seq![seq!['/']] + a + b);
    let n = path_parts(base).len() as int;
    assert(n == 1 + a.len());
    assert(path_parts(p).take(n) =~= path_parts(base));
    assert(texts_at(p, first).len() == first.len());
    lemma_span_ends(b, at);
    assert(path_spans(p)[n] == name_spans(b, at)[0]);
    assert(path_spans(p).last() == name_spans(b, at).last());
    assert(p.subrange(at, p.len() as int) =~= rest);
}

proof fn lemma_span_ends(names: Seq<Seq<char>>, i: int)
    requires
        names.len() > 0,
    ensures
        name_spans(names, i).len() == names.len(),
        name_spans(names, i)[0].0 == i,
        name_spans(names, i).last().1 == i + slashed(names).len(),
    decreases names.len(),
{
    if names.len() == 1 {
        assert(name_spans(names.skip(1), i + names[0].len() + 1) =~= Seq::<(int, int)>::empty());
    } else {
        lemma_span_ends(names.skip(1), i + names[0].len() + 1);
    }
}

/// A path comes before those below it, and paths part where their names do.
pub proof fn paths_are_in_order(a: Seq<Seq<char>>, b: Seq<Seq<char>>, x: Seq<char>, y: Seq<char>)
    requires
        plain_name(x),
        plain_name(y),
        x != seq!['.', '.'],
        y != seq!['.', '.'],
        x != y,
    ensures
        parts_le(a, a + b),
        b.len() > 0 ==> !parts_le(a + b, a),
        parts_le(a.push(x) + b, a.push(y)) <==> text_le(x, y),
    decreases a.len(),
{
    if a.len() == 0 {
        assert(a + b =~= b);
        assert((a.push(x) + b)[0] == x);
        assert(a.push(y)[0] == y);
        assert(x != seq!['/']) by {
            assert(x[0] != '/');
        }
        assert(y != seq!['/']) by {
            assert(y[0] != '/');
        }
    } else {
        let t = a.skip(1);
        paths_are_in_order(t, b, x, y);
        assert((a + b).skip(1) =~= t + b);
        assert((a + b)[0] == a[0]);
        assert((a.push(x) + b).skip(1) =~= t.push(x) + b);
        assert(a.push(y).skip(1) =~= t.push(y));
        assert((a.push(x) + b)[0] == a[0]);
        assert(a.push(y)[0] == a[0]);
    }
}

/// A path that ends in the place above it, or is the root, has no name of its own
/// and is told whole.
pub proof fn some_paths_have_no_name(names: Seq<Seq<char>>)
    requires
        names.len() > 0,
        forall|k: int| 0 <= k < names.len() ==> plain_name(#[trigger] names[k]),
        names.last() == seq!['.', '.'],
    ensures
        place_name(slashed(names)) == slashed(names),
        place_name(seq!['/']) == seq!['/'],
{
    the_parts_of_a_path_are_its_names(names);
    let r = seq!['/'];
    assert(part_spans(r, 1) =~= Seq::<(int, int)>::empty());
    assert(path_spans(r) =~= seq![(0int, 1int)]);
    assert(r.subrange(0, 1) =~= r);
    assert(path_parts(r) =~= seq![r]);
    assert(path_parts(r).last() == seq!['/']);
}

/// A dot or nothing between two slashes leads nowhere else.
pub proof fn a_dot_leads_nowhere(a: Seq<Seq<char>>, b: Seq<Seq<char>>)
    requires
        a.len() > 0,
        b.len() > 0,
        forall|k: int| 0 <= k < a.len() ==> plain_name(#[trigger] a[k]),
        forall|k: int| 0 <= k < b.len() ==> plain_name(#[trigger] b[k]),
    ensures
        path_parts(slashed(a) + seq!['/', '.', '/'] + slashed(b)) == a + b,
        path_parts(slashed(a) + seq!['/', '/'] + slashed(b)) == a + b,
{
    let e = Seq::<char>::empty();
    lemma_starts_plain(a);
    lemma_starts_plain(b);
    let x = slashed(a);
    let y = slashed(b);
    let p = x + seq!['/', '.', '/'] + y;
    let n = x.len() as int;
    assert(p.skip(0) =~= x + (seq!['/', '.', '/'] + y));
    assert(p[0] == x[0]);
    lemma_name_spans(p, 0, a, seq!['/', '.', '/'] + y);
    lemma_next_slash_at(p, n + 1, n + 2);
    assert(p.skip(n + 3) =~= y + e);
    lemma_name_spans(p, n + 3, b, e);
    assert(part_spans(p, n + 3 + y.len() + 1) =~= Seq::<(int, int)>::empty());
    assert(part_spans(p, n + 1) == part_spans(p, n + 3));
    assert(path_spans(p) =~= name_spans(a, 0) + name_spans(b, n + 3));
    assert(path_parts(p) =~= texts_at(p, name_spans(a, 0)) + texts_at(p, name_spans(b, n + 3)));
    let q = x + seq!['/', '/'] + y;
    assert(q.skip(0) =~= x + (seq!['/', '/'] + y));
    assert(q[0] == x[0]);
    lemma_name_spans(q, 0, a, seq!['/', '/'] + y);
    lemma_next_slash_at(q, n + 1, n + 1);
    assert(q.skip(n + 2) =~= y + e);
    lemma_name_spans(q, n + 2, b, e);
    assert(part_spans(q, n + 2 + y.len() + 1) =~= Seq::<(int, int)>::empty());
    assert(part_spans(q, n + 1) == part_spans(q, n + 2));
    assert(path_spans(q) =~= name_spans(a, 0) + name_spans(b, n + 2));
    assert(path_parts(q) =~= texts_at(q, name_spans(a, 0)) + texts_at(q, name_spans(b, n + 2)));
}

/// A path that is not below another is seen from there as it is.
pub proof fn a_path_elsewhere_is_seen_whole(a: Seq<Seq<char>>, b: Seq<Seq<char>>)
    requires
        a.len() > 0,
        b.len() > 0,
        forall|k: int| 0 <= k < a.len() ==> plain_name(#[trigger] a[k]),
        forall|k: int| 0 <= k < b.len() ==> plain_name(#[trigger] b[k]),
        a[0] != b[0],
    ensures
        path_from(slashed(a), slashed(b)) == slashed(a),
{
    the_parts_of_a_path_are_its_names(a);
    the_parts_of_a_path_are_its_names(b);
    let n = b.len() as int;
    if n <= a.len() {
        assert(a.take(n)[0] == a[0]);
    }
    assert(path_spans(slashed(a)).len() == path_parts(slashed(a)).len());
}

/// The white space that is not of the keyboard.
pub proof fn other_white_space(c: char)
    ensures
        white('\u{b}') && white('\u{c}') && white('\u{85}') && white('\u{a0}'),
        white('\u{1680}') && white('\u{2028}') && white('\u{2029}'),
        white('\u{202f}') && white('\u{205f}') && white('\u{3000}'),
        '\u{2000}' <= c <= '\u{200a}' ==> white(c),
        '\u{200b}' <= c <= '\u{2027}' ==> !white(c),
        '\u{a1}' <= c <= '\u{167f}' ==> !white(c),
        c > '\u{3000}' ==> !white(c),
{
}

} // verus!
