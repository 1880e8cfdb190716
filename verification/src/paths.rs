//! Slash-separated paths: their parts, their last part, joining and stripping.
//!
//! Two paths are the same when their parts are, so that doubled slashes, a
//! trailing slash and `.` in the middle make no difference.
use crate::text::{
    chars_of,
    is_text_le,
    lemma_text_le_total,
    lemma_text_le_trans,
    same_chars,
    slice_of,
    text_le,
    text_of,
    texts,
};
use vstd::prelude::*;
use vstd::slice::slice_subrange;
use vstd::string::*;

verus! {

/// The first slash at or behind `i`, or the end.
pub open spec fn next_slash(p: Seq<char>, i: int) -> int
    decreases p.len() - i,
{
    if i >= p.len() || i < 0 {
        p.len() as int
    } else if p[i] == '/' {
        i
    } else {
        next_slash(p, i + 1)
    }
}

/// A slash search goes forward and stays inside.
pub proof fn lemma_next_slash(p: Seq<char>, i: int)
    requires
        0 <= i <= p.len(),
    ensures
        i <= next_slash(p, i) <= p.len(),
    decreases p.len() - i,
{
    if i < p.len() && p[i] != '/' {
        lemma_next_slash(p, i + 1);
    }
}

/// Where the parts behind position `i` stand. Empty pieces are no parts, nor is
/// a `.` that is not the very first piece.
pub open spec fn part_spans(p: Seq<char>, i: int) -> Seq<(int, int)>
    decreases p.len() + 1 - i,
{
    if i < 0 || i >= p.len() {
        Seq::empty()
    } else {
        proof {
            lemma_next_slash(p, i);
        }
        let j = next_slash(p, i);
        let rest = part_spans(p, j + 1);
        if j == i || (i > 0 && j == i + 1 && p[i] == '.') {
            rest
        } else {
            seq![(i, j)] + rest
        }
    }
}

/// Where the parts of a path stand; the root is a part of its own.
pub open spec fn path_spans(p: Seq<char>) -> Seq<(int, int)> {
    if p.len() > 0 && p[0] == '/' {
        seq![(0int, 1int)] + part_spans(p, 1)
    } else {
        part_spans(p, 0)
    }
}

/// The texts that stand at some places.
pub open spec fn texts_at(p: Seq<char>, spans: Seq<(int, int)>) -> Seq<Seq<char>> {
    spans.map_values(|s: (int, int)| p.subrange(s.0, s.1))
}

/// The parts of a path.
pub open spec fn path_parts(p: Seq<char>) -> Seq<Seq<char>> {
    texts_at(p, path_spans(p))
}

/// The places as mathematical integers.
pub open spec fn int_spans(v: Seq<(usize, usize)>) -> Seq<(int, int)> {
    v.map_values(|s: (usize, usize)| (s.0 as int, s.1 as int))
}

fn slash_from(p: &[char], i: usize) -> (j: usize)
    requires
        i <= p@.len(),
    ensures
        j == next_slash(p@, i as int),
        i <= j <= p@.len(),
{
    let mut j: usize = i;
    while j < p.len() && p[j] != '/'
        invariant
            i <= j <= p@.len(),
            next_slash(p@, i as int) == next_slash(p@, j as int),
        decreases p@.len() - j,
    {
        j += 1;
    }
    j
}

/// Where the parts of a path stand.
fn spans_of(p: &[char]) -> (out: Vec<(usize, usize)>)
    ensures
        int_spans(out@) == path_spans(p@),
        forall|k: int| 0 <= k < out@.len() ==> (#[trigger] out@[k]).0 <= out@[k].1 <= p@.len(),
{
    let mut out: Vec<(usize, usize)> = Vec::new();
    let mut i: usize = 0;
    if p.len() > 0 && p[0] == '/' {
        out.push((0, 1));
        i = 1;
        assert(int_spans(out@) =~= seq![(0int, 1int)]);
    }
    let ghost lead = int_spans(out@);
    let ghost from = i as int;
    assert(int_spans(out@) + part_spans(p@, i as int) =~= path_spans(p@));
    while i < p.len()
        invariant
            i <= p@.len(),
            int_spans(out@) + part_spans(p@, i as int) == path_spans(p@),
            forall|k: int| 0 <= k < out@.len() ==> (#[trigger] out@[k]).0 <= out@[k].1 <= p@.len(),
        decreases p@.len() - i,
    {
        let j: usize = slash_from(p, i);
        let ghost before = int_spans(out@);
        let ghost tail = part_spans(p@, j + 1);
        assert(part_spans(p@, i as int) == (if j == i || (i > 0 && j == i + 1 && p@[i as int]
            == '.') {
            tail
        } else {
            seq![(i as int, j as int)] + tail
        }));
        if !(j == i || (i > 0 && j - i == 1 && p[i] == '.')) {
            out.push((i, j));
            assert(int_spans(out@) =~= before.push((i as int, j as int)));
            assert(before + (seq![(i as int, j as int)] + tail) =~= int_spans(out@) + tail);
        }
        if j < p.len() {
            i = j + 1;
        } else {
            assert(part_spans(p@, j + 1) =~= part_spans(p@, j as int));
            i = j;
        }
    }
    assert(part_spans(p@, i as int) =~= Seq::<(int, int)>::empty());
    assert(int_spans(out@) =~= path_spans(p@));
    out
}

/// The parts of a path.
pub fn parts_of(p: &str) -> (out: Vec<Vec<char>>)
    ensures
        texts(out@) == path_parts(p@),
{
    let chars: Vec<char> = chars_of(p);
    let spans: Vec<(usize, usize)> = spans_of(chars.as_slice());
    let mut out: Vec<Vec<char>> = Vec::new();
    let mut i: usize = 0;
    while i < spans.len()
        invariant
            i <= spans@.len(),
            chars@ == p@,
            int_spans(spans@) == path_spans(p@),
            forall|k: int|
                0 <= k < spans@.len() ==> (#[trigger] spans@[k]).0 <= spans@[k].1 <= chars@.len(),
            texts(out@) =~= path_parts(p@).take(i as int),
        decreases spans@.len() - i,
    {
        let ghost before = texts(out@);
        let (a, b): (usize, usize) = spans[i];
        let piece: Vec<char> = slice_of(chars.as_slice(), a, b);
        let ghost pv = piece@;
        assert(path_spans(p@)[i as int] == int_spans(spans@)[i as int]);
        assert(pv == path_parts(p@)[i as int]);
        out.push(piece);
        i += 1;
        assert(texts(out@) =~= before.push(pv));
    }
    assert(path_parts(p@).take(i as int) =~= path_parts(p@));
    out
}

/// The paths name the same place.
pub open spec fn same_place(a: Seq<char>, b: Seq<char>) -> bool {
    path_parts(a) == path_parts(b)
}

/// Whether two lists of parts are the same.
pub fn same_parts(a: &[Vec<char>], b: &[Vec<char>]) -> (r: bool)
    ensures
        r == (texts(a@) == texts(b@)),
{
    if a.len() != b.len() {
        assert(texts(a@).len() != texts(b@).len());
        return false;
    }
    let mut i: usize = 0;
    while i < a.len()
        invariant
            i <= a@.len(),
            a@.len() == b@.len(),
            forall|j: int| 0 <= j < i ==> (#[trigger] a@[j])@ == b@[j]@,
        decreases a@.len() - i,
    {
        if !same_chars(a[i].as_slice(), b[i].as_slice()) {
            assert(texts(a@)[i as int] != texts(b@)[i as int]);
            return false;
        }
        i += 1;
    }
    assert(texts(a@) =~= texts(b@));
    true
}

/// Whether two paths name the same place.
pub fn is_same_place(a: &str, b: &str) -> (r: bool)
    ensures
        r == same_place(a@, b@),
{
    let x: Vec<Vec<char>> = parts_of(a);
    let y: Vec<Vec<char>> = parts_of(b);
    same_parts(x.as_slice(), y.as_slice())
}

/// The last part of a path, unless it is the root, `.` or `..`.
pub open spec fn path_leaf(p: Seq<char>) -> Option<Seq<char>> {
    let parts = path_parts(p);
    if parts.len() == 0 || parts.last() == seq!['/'] || parts.last() == seq!['.'] || parts.last()
        == seq!['.', '.'] {
        None
    } else {
        Some(parts.last())
    }
}

/// The name worth reading of a directory: its last part, or the whole path
/// where there is none.
pub open spec fn place_name(p: Seq<char>) -> Seq<char> {
    match path_leaf(p) {
        Some(l) => l,
        None => p,
    }
}

/// The name worth reading of a directory.
pub fn place_name_of(p: &str) -> (r: String)
    ensures
        r@ == place_name(p@),
{
    let mut parts: Vec<Vec<char>> = parts_of(p);
    let ghost all = path_parts(p@);
    match parts.pop() {
        None => p.to_owned(),
        Some(last) => {
            assert(all.last() == last@);
            let root: Vec<char> = vec!['/'];
            let here: Vec<char> = vec!['.'];
            let up: Vec<char> = vec!['.', '.'];
            assert(root@ =~= seq!['/']);
            assert(here@ =~= seq!['.']);
            assert(up@ =~= seq!['.', '.']);
            if same_chars(last.as_slice(), root.as_slice()) || same_chars(
                last.as_slice(),
                here.as_slice(),
            ) || same_chars(last.as_slice(), up.as_slice()) {
                p.to_owned()
            } else {
                text_of(last.as_slice())
            }
        },
    }
}

/// A path inside a directory; an absolute path stays as it is.
pub open spec fn path_join(base: Seq<char>, rest: Seq<char>) -> Seq<char> {
    if rest.len() > 0 && rest[0] == '/' {
        rest
    } else if base.len() > 0 && base.last() != '/' {
        base + seq!['/'] + rest
    } else {
        base + rest
    }
}

/// A path inside a directory.
pub fn join_path(base: &str, rest: &str) -> (r: String)
    ensures
        r@ == path_join(base@, rest@),
{
    let b: Vec<char> = chars_of(base);
    let t: Vec<char> = chars_of(rest);
    if t.len() > 0 && t[0] == '/' {
        return rest.to_owned();
    }
    let mut out: String = base.to_owned();
    if b.len() > 0 && b[b.len() - 1] != '/' {
        out.push('/');
        assert(out@ =~= base@ + seq!['/']);
    }
    out.concat(rest)
}

/// What is left of a path below a directory: from the first part that is not
/// the directory's to the last part.
pub open spec fn path_below(p: Seq<char>, base: Seq<char>) -> Option<Seq<char>> {
    let n = path_parts(base).len() as int;
    let spans = path_spans(p);
    if n > spans.len() || path_parts(p).take(n) != path_parts(base) {
        None
    } else if n == spans.len() {
        Some(Seq::empty())
    } else {
        Some(p.subrange(spans[n].0, spans.last().1))
    }
}

/// A path as it reads from a directory: what is left below it, or the whole.
pub open spec fn path_from(p: Seq<char>, base: Seq<char>) -> Seq<char> {
    match path_below(p, base) {
        Some(r) => r,
        None => p,
    }
}

/// The parts stand one behind the other, inside the path.
proof fn lemma_spans_ordered(p: Seq<char>, i: int)
    requires
        0 <= i,
    ensures
        forall|k: int|
            0 <= k < part_spans(p, i).len() ==> i <= (#[trigger] part_spans(p, i)[k]).0
                < part_spans(p, i)[k].1 <= p.len(),
        forall|k: int, m: int|
            0 <= k < m < part_spans(p, i).len() ==> (#[trigger] part_spans(p, i)[k]).1 < (
            #[trigger] part_spans(p, i)[m]).0,
    decreases p.len() + 1 - i,
{
    if i < p.len() {
        lemma_next_slash(p, i);
        let j = next_slash(p, i);
        lemma_spans_ordered(p, j + 1);
        let rest = part_spans(p, j + 1);
        if !(j == i || (i > 0 && j == i + 1 && p[i] == '.')) {
            assert(part_spans(p, i) =~= seq![(i, j)] + rest);
        } else {
            assert(part_spans(p, i) == rest);
        }
    }
}

/// A path as it reads from a directory.
pub fn path_seen_from(p: &str, base: &str) -> (r: String)
    ensures
        r@ == path_from(p@, base@),
{
    let chars: Vec<char> = chars_of(p);
    let spans: Vec<(usize, usize)> = spans_of(chars.as_slice());
    let parts: Vec<Vec<char>> = parts_of(p);
    let front: Vec<Vec<char>> = parts_of(base);
    let n: usize = front.len();
    let ghost all = path_parts(p@);
    assert(all.len() == path_spans(p@).len());
    assert(int_spans(spans@).len() == spans@.len());
    assert(texts(parts@).len() == parts@.len());
    assert(texts(front@).len() == front@.len());
    if n > parts.len() {
        return p.to_owned();
    }
    let lead: &[Vec<char>] = slice_subrange(parts.as_slice(), 0, n);
    assert(texts(lead@) =~= all.take(n as int));
    if !same_parts(lead, front.as_slice()) {
        return p.to_owned();
    }
    if n == spans.len() {
        return String::new();
    }
    let from: usize = spans[n].0;
    let to: usize = spans[spans.len() - 1].1;
    proof {
        let s = path_spans(p@);
        assert(s[n as int] == int_spans(spans@)[n as int]);
        assert(s.last() == int_spans(spans@)[spans@.len() - 1]);
        let i: int = if p@.len() > 0 && p@[0] == '/' {
            1
        } else {
            0
        };
        lemma_spans_ordered(p@, i);
        if n < spans@.len() - 1 {
            if i == 1 {
                assert(s =~= seq![(0int, 1int)] + part_spans(p@, 1));
                assert(s.last() == part_spans(p@, 1)[s.len() - 2]);
                if n > 0 {
                    assert(s[n as int] == part_spans(p@, 1)[n - 1]);
                }
            } else {
                assert(s == part_spans(p@, 0));
            }
        }
    }
    let rest: Vec<char> = slice_of(chars.as_slice(), from, to);
    text_of(rest.as_slice())
}

/// The rank of a part: the root, then `.`, then `..`, then a name.
pub open spec fn part_rank(s: Seq<char>) -> int {
    if s == seq!['/'] {
        0
    } else if s == seq!['.'] {
        1
    } else if s == seq!['.', '.'] {
        2
    } else {
        3
    }
}

fn rank_of(s: &[char]) -> (r: u8)
    ensures
        r == part_rank(s@),
{
    let root: Vec<char> = vec!['/'];
    let here: Vec<char> = vec!['.'];
    let up: Vec<char> = vec!['.', '.'];
    assert(root@ =~= seq!['/']);
    assert(here@ =~= seq!['.']);
    assert(up@ =~= seq!['.', '.']);
    if same_chars(s, root.as_slice()) {
        0
    } else if same_chars(s, here.as_slice()) {
        1
    } else if same_chars(s, up.as_slice()) {
        2
    } else {
        3
    }
}

/// Part `a` comes before `b` or is the same.
pub open spec fn part_le(a: Seq<char>, b: Seq<char>) -> bool {
    part_rank(a) < part_rank(b) || (part_rank(a) == part_rank(b) && text_le(a, b))
}

/// The parts `a` come before `b` or are the same.
pub open spec fn parts_le(a: Seq<Seq<char>>, b: Seq<Seq<char>>) -> bool
    decreases a.len(),
{
    if a.len() == 0 {
        true
    } else if b.len() == 0 {
        false
    } else if a[0] != b[0] {
        part_le(a[0], b[0])
    } else {
        parts_le(a.skip(1), b.skip(1))
    }
}

/// Two texts that come before each other are the same.
proof fn lemma_text_le_both(a: Seq<char>, b: Seq<char>)
    requires
        text_le(a, b),
        text_le(b, a),
    ensures
        a == b,
    decreases a.len(),
{
    if a.len() > 0 && b.len() > 0 {
        lemma_text_le_both(a.skip(1), b.skip(1));
        assert(a =~= seq![a[0]] + a.skip(1));
        assert(b =~= seq![b[0]] + b.skip(1));
    } else {
        assert(a =~= b);
    }
}

/// Any two lists of parts are in order one way or the other.
pub proof fn lemma_parts_le_total(a: Seq<Seq<char>>, b: Seq<Seq<char>>)
    ensures
        parts_le(a, b) || parts_le(b, a),
    decreases a.len(),
{
    if a.len() > 0 && b.len() > 0 {
        lemma_text_le_total(a[0], b[0]);
        if a[0] == b[0] {
            lemma_parts_le_total(a.skip(1), b.skip(1));
        }
    }
}

/// The order of parts is transitive.
pub proof fn lemma_parts_le_trans(a: Seq<Seq<char>>, b: Seq<Seq<char>>, c: Seq<Seq<char>>)
    requires
        parts_le(a, b),
        parts_le(b, c),
    ensures
        parts_le(a, c),
    decreases a.len(),
{
    if a.len() > 0 && b.len() > 0 && c.len() > 0 {
        if a[0] == b[0] && b[0] == c[0] {
            lemma_parts_le_trans(a.skip(1), b.skip(1), c.skip(1));
        } else if a[0] != b[0] && b[0] != c[0] {
            if part_rank(a[0]) == part_rank(b[0]) && part_rank(b[0]) == part_rank(c[0]) {
                lemma_text_le_trans(a[0], b[0], c[0]);
                if a[0] == c[0] {
                    lemma_text_le_both(a[0], b[0]);
                }
            }
        }
    }
}

/// Whether the parts `a` come before `b` or are the same.
pub fn is_parts_le(a: &[Vec<char>], b: &[Vec<char>]) -> (r: bool)
    ensures
        r == parts_le(texts(a@), texts(b@)),
{
    let mut i: usize = 0;
    let ghost x = texts(a@);
    let ghost y = texts(b@);
    assert(x.skip(0) =~= x && y.skip(0) =~= y);
    while i < a.len() && i < b.len() && same_chars(a[i].as_slice(), b[i].as_slice())
        invariant
            i <= a@.len(),
            i <= b@.len(),
            x == texts(a@),
            y == texts(b@),
            parts_le(x, y) == parts_le(x.skip(i as int), y.skip(i as int)),
        decreases a@.len() - i,
    {
        assert(x.skip(i as int).skip(1) =~= x.skip(i + 1));
        assert(y.skip(i as int).skip(1) =~= y.skip(i + 1));
        assert(x.skip(i as int)[0] == y.skip(i as int)[0]);
        i += 1;
    }
    if i >= a.len() {
        true
    } else if i >= b.len() {
        false
    } else {
        assert(x.skip(i as int)[0] == a@[i as int]@);
        assert(y.skip(i as int)[0] == b@[i as int]@);
        let ra: u8 = rank_of(a[i].as_slice());
        let rb: u8 = rank_of(b[i].as_slice());
        ra < rb || (ra == rb && is_text_le(a[i].as_slice(), b[i].as_slice()))
    }
}

} // verus!
