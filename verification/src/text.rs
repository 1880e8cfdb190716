//! Text as sequences of characters: trimming, splitting, searching, decimals.
use vstd::prelude::*;
use vstd::string::*;
use vstd::utf8::*;

verus! {

/// `String::push` appends the character to the end of the string.
pub assume_specification[ String::push ](s: &mut String, c: char)
    ensures
        final(s)@ == old(s)@.push(c),
;

/// The characters of a string.
pub fn chars_of(s: &str) -> (v: Vec<char>)
    ensures
        v@ == s@,
{
    let mut v: Vec<char> = Vec::new();
    for c in it: s.chars()
        invariant
            it.seq() == s@,
            v@ == s@.take(it.index() as int),
    {
        v.push(c);
        assert(v@ =~= s@.take(it.index() as int + 1));
    }
    assert(s@.take(s@.len() as int) =~= s@);
    v
}

/// The string of some characters.
pub fn text_of(v: &[char]) -> (s: String)
    ensures
        s@ == v@,
{
    let mut s: String = String::new();
    let mut i: usize = 0;
    while i < v.len()
        invariant
            i <= v@.len(),
            s@ == v@.take(i as int),
        decreases v@.len() - i,
    {
        s.push(v[i]);
        i += 1;
        assert(s@ =~= v@.take(i as int));
    }
    assert(v@.take(i as int) =~= v@);
    s
}

/// Whether two texts are the same.
pub fn same(a: &str, b: &str) -> (r: bool)
    ensures
        r == (a@ == b@),
{
    let x: String = a.to_owned();
    let y: String = b.to_owned();
    x == y
}

/// Whether two runs of characters are the same.
pub fn same_chars(a: &[char], b: &[char]) -> (r: bool)
    ensures
        r == (a@ == b@),
{
    if a.len() != b.len() {
        return false;
    }
    let mut i: usize = 0;
    while i < a.len()
        invariant
            i <= a@.len(),
            a@.len() == b@.len(),
            forall|j: int| 0 <= j < i ==> a@[j] == b@[j],
        decreases a@.len() - i,
    {
        if a[i] != b[i] {
            return false;
        }
        i += 1;
    }
    assert(a@ =~= b@);
    true
}

/// Copy of `src[from..to]`.
pub fn slice_of(src: &[char], from: usize, to: usize) -> (out: Vec<char>)
    requires
        from <= to <= src@.len(),
    ensures
        out@ == src@.subrange(from as int, to as int),
{
    let mut out: Vec<char> = Vec::new();
    let mut i: usize = from;
    while i < to
        invariant
            from <= i <= to,
            to <= src@.len(),
            out@ =~= src@.subrange(from as int, i as int),
        decreases to - i,
    {
        out.push(src[i]);
        i += 1;
    }
    out
}

/// The characters with the Unicode property White_Space.
pub open spec fn white(c: char) -> bool {
    ||| '\u{9}' <= c <= '\u{d}'
    ||| c == ' '
    ||| c == '\u{85}'
    ||| c == '\u{a0}'
    ||| c == '\u{1680}'
    ||| '\u{2000}' <= c <= '\u{200a}'
    ||| c == '\u{2028}'
    ||| c == '\u{2029}'
    ||| c == '\u{202f}'
    ||| c == '\u{205f}'
    ||| c == '\u{3000}'
}

/// Whether a character is white space.
pub fn is_white(c: char) -> (r: bool)
    ensures
        r == white(c),
{
    let n: u32 = c as u32;
    (9 <= n && n <= 0xd) || n == 0x20 || n == 0x85 || n == 0xa0 || n == 0x1680 || (0x2000 <= n && n
        <= 0x200a) || n == 0x2028 || n == 0x2029 || n == 0x202f || n == 0x205f || n == 0x3000
}

/// The text without the white space at its start.
pub open spec fn trim_start(s: Seq<char>) -> Seq<char>
    decreases s.len(),
{
    if s.len() > 0 && white(s[0]) {
        trim_start(s.skip(1))
    } else {
        s
    }
}

/// The text without the white space at its end.
pub open spec fn trim_end(s: Seq<char>) -> Seq<char>
    decreases s.len(),
{
    if s.len() > 0 && white(s.last()) {
        trim_end(s.drop_last())
    } else {
        s
    }
}

/// The text without the white space at either end.
pub open spec fn trim(s: Seq<char>) -> Seq<char> {
    trim_end(trim_start(s))
}

/// The text without the white space at its start.
pub fn trim_start_of(v: &[char]) -> (out: Vec<char>)
    ensures
        out@ == trim_start(v@),
{
    let mut i: usize = 0;
    assert(v@.skip(0) =~= v@);
    while i < v.len() && is_white(v[i])
        invariant
            i <= v@.len(),
            trim_start(v@) == trim_start(v@.skip(i as int)),
        decreases v@.len() - i,
    {
        assert(v@.skip(i as int).skip(1) =~= v@.skip(i + 1));
        i += 1;
    }
    assert(v@.subrange(i as int, v@.len() as int) =~= v@.skip(i as int));
    slice_of(v, i, v.len())
}

/// The text without the white space at its end.
pub fn trim_end_of(v: &[char]) -> (out: Vec<char>)
    ensures
        out@ == trim_end(v@),
{
    let mut i: usize = v.len();
    assert(v@.take(v@.len() as int) =~= v@);
    while i > 0 && is_white(v[i - 1])
        invariant
            i <= v@.len(),
            trim_end(v@) == trim_end(v@.take(i as int)),
        decreases i,
    {
        assert(v@.take(i as int).drop_last() =~= v@.take(i - 1));
        i -= 1;
    }
    assert(v@.subrange(0, i as int) =~= v@.take(i as int));
    slice_of(v, 0, i)
}

/// The text without the white space at either end.
pub fn trim_of(v: &[char]) -> (out: Vec<char>)
    ensures
        out@ == trim(v@),
{
    let s: Vec<char> = trim_start_of(v);
    trim_end_of(s.as_slice())
}

/// The pieces of a text between the separators.
pub open spec fn split(s: Seq<char>, sep: char) -> Seq<Seq<char>>
    decreases s.len(),
{
    if s.len() == 0 {
        seq![Seq::<char>::empty()]
    } else {
        let before = split(s.drop_last(), sep);
        if s.last() == sep {
            before.push(Seq::empty())
        } else {
            before.drop_last().push(before.last().push(s.last()))
        }
    }
}

/// The texts of a vector of character vectors.
pub open spec fn texts(v: Seq<Vec<char>>) -> Seq<Seq<char>> {
    v.map_values(|c: Vec<char>| c@)
}

/// The texts of a vector of strings.
pub open spec fn strings(v: Seq<String>) -> Seq<Seq<char>> {
    v.map_values(|c: String| c@)
}

/// A text always has a piece.
pub proof fn lemma_split_nonempty(s: Seq<char>, sep: char)
    ensures
        split(s, sep).len() > 0,
    decreases s.len(),
{
    if s.len() > 0 {
        lemma_split_nonempty(s.drop_last(), sep);
    }
}

/// The pieces of a text between the separators.
pub fn split_of(v: &[char], sep: char) -> (out: Vec<Vec<char>>)
    ensures
        texts(out@) == split(v@, sep),
        out@.len() > 0,
{
    let mut done: Vec<Vec<char>> = Vec::new();
    let mut cur: Vec<char> = Vec::new();
    let mut i: usize = 0;
    assert(v@.take(0) =~= Seq::<char>::empty());
    assert(texts(done@).push(cur@) =~= split(v@.take(0), sep));
    while i < v.len()
        invariant
            i <= v@.len(),
            texts(done@).push(cur@) == split(v@.take(i as int), sep),
        decreases v@.len() - i,
    {
        let c: char = v[i];
        let ghost before = texts(done@).push(cur@);
        let ghost done0 = texts(done@);
        assert(before.drop_last() =~= done0);
        assert(v@.take(i + 1).drop_last() =~= v@.take(i as int));
        if c == sep {
            done.push(cur);
            cur = Vec::new();
            assert(texts(done@) =~= before);
        } else {
            cur.push(c);
        }
        i += 1;
        assert(texts(done@).push(cur@) =~= split(v@.take(i as int), sep));
    }
    assert(v@.take(i as int) =~= v@);
    let ghost done0 = texts(done@);
    let ghost last = cur@;
    done.push(cur);
    assert(texts(done@) =~= done0.push(last));
    done
}

/// Whether a text holds a character.
pub fn holds(v: &[char], c: char) -> (r: bool)
    ensures
        r == v@.contains(c),
{
    let mut i: usize = 0;
    while i < v.len()
        invariant
            i <= v@.len(),
            forall|j: int| 0 <= j < i ==> v@[j] != c,
        decreases v@.len() - i,
    {
        if v[i] == c {
            return true;
        }
        i += 1;
    }
    false
}

/// Whether `p` stands in `s` at position `i`.
pub open spec fn stands_at(s: Seq<char>, p: Seq<char>, i: int) -> bool {
    0 <= i && i + p.len() <= s.len() && s.subrange(i, i + p.len()) == p
}

/// The first position at or after `i` at which `p` stands in `s`.
pub open spec fn find_from(s: Seq<char>, p: Seq<char>, i: int) -> Option<int>
    decreases s.len() + 1 - i,
{
    if i < 0 || i > s.len() {
        None
    } else if stands_at(s, p, i) {
        Some(i)
    } else {
        find_from(s, p, i + 1)
    }
}

/// The first position at which `p` stands in `s`.
pub open spec fn find(s: Seq<char>, p: Seq<char>) -> Option<int> {
    find_from(s, p, 0)
}

/// What a position found by `find_from` is.
pub proof fn lemma_find_from(s: Seq<char>, p: Seq<char>, i: int)
    requires
        0 <= i,
    ensures
        match find_from(s, p, i) {
            Some(j) => i <= j && stands_at(s, p, j) && forall|q: int| i <= q < j ==> !stands_at(s, p, q),
            None => forall|q: int| i <= q ==> !stands_at(s, p, q),
        },
    decreases s.len() + 1 - i,
{
    if i <= s.len() && !stands_at(s, p, i) {
        lemma_find_from(s, p, i + 1);
    }
}

/// Whether `p` stands in `v` at position `i`.
pub fn matches_at(v: &[char], p: &[char], i: usize) -> (r: bool)
    ensures
        r == stands_at(v@, p@, i as int),
{
    if i > v.len() || v.len() - i < p.len() {
        return false;
    }
    let mut j: usize = 0;
    while j < p.len()
        invariant
            j <= p@.len(),
            i + p@.len() <= v@.len(),
            v@.len() <= usize::MAX,
            forall|q: int| 0 <= q < j ==> v@[i + q] == p@[q],
        decreases p@.len() - j,
    {
        if v[i + j] != p[j] {
            assert(v@.subrange(i as int, i + p@.len())[j as int] != p@[j as int]);
            return false;
        }
        j += 1;
    }
    assert(v@.subrange(i as int, i + p@.len()) =~= p@);
    true
}

/// The first position at which `p` stands in `v`.
pub fn find_of(v: &[char], p: &[char]) -> (r: Option<usize>)
    ensures
        match r {
            Some(i) => find(v@, p@) == Some(i as int),
            None => find(v@, p@) is None,
        },
{
    let n: usize = v.len();
    let mut i: usize = 0;
    while i < n
        invariant
            i <= n,
            n == v@.len(),
            find(v@, p@) == find_from(v@, p@, i as int),
        decreases n - i,
    {
        if matches_at(v, p, i) {
            return Some(i);
        }
        i += 1;
    }
    if matches_at(v, p, i) {
        return Some(i);
    }
    assert(find_from(v@, p@, n + 1) is None);
    None
}

/// How many times `c` stands at the start of the text.
pub open spec fn run(s: Seq<char>, c: char) -> nat
    decreases s.len(),
{
    if s.len() > 0 && s[0] == c {
        1 + run(s.skip(1), c)
    } else {
        0
    }
}

/// How many times `c` stands at the start of the text.
pub fn run_of(v: &[char], from: usize, c: char) -> (n: usize)
    requires
        from <= v@.len(),
    ensures
        n == run(v@.skip(from as int), c),
        from + n <= v@.len(),
{
    let mut i: usize = from;
    let total: usize = v.len();
    while i < total && v[i] == c
        invariant
            from <= i <= total,
            total == v@.len(),
            run(v@.skip(from as int), c) == (i - from) + run(v@.skip(i as int), c),
        decreases total - i,
    {
        assert(v@.skip(i as int).skip(1) =~= v@.skip(i + 1));
        i += 1;
    }
    i - from
}

/// `n` copies of a character.
pub open spec fn repeat(c: char, n: nat) -> Seq<char> {
    Seq::new(n, |i: int| c)
}

/// Append `n` copies of a character.
pub fn push_repeat(v: &mut Vec<char>, c: char, n: usize)
    ensures
        final(v)@ == old(v)@ + repeat(c, n as nat),
{
    let ghost before = v@;
    let mut i: usize = 0;
    while i < n
        invariant
            i <= n,
            v@ =~= before + repeat(c, i as nat),
        decreases n - i,
    {
        v.push(c);
        i += 1;
    }
}

/// Append a text.
pub fn push_text(v: &mut Vec<char>, s: &str)
    ensures
        final(v)@ == old(v)@ + s@,
{
    let w: Vec<char> = chars_of(s);
    v.extend_from_slice(w.as_slice());
    assert(v@ =~= old(v)@ + s@);
}

/// The decimal digit of `d`.
pub open spec fn digit(d: int) -> char {
    (d + 48) as char
}

/// A number in decimal.
pub open spec fn decimal(n: nat) -> Seq<char>
    decreases n,
{
    if n < 10 {
        seq![digit(n as int)]
    } else {
        decimal(n / 10).push(digit((n % 10) as int))
    }
}

/// Append a number in decimal.
pub fn push_decimal(v: &mut Vec<char>, n: u64)
    ensures
        final(v)@ == old(v)@ + decimal(n as nat),
    decreases n,
{
    let ghost before = v@;
    if n >= 10 {
        push_decimal(v, n / 10);
    }
    let d: u8 = (n % 10) as u8;
    v.push((d + 48) as char);
    assert(v@ =~= before + decimal(n as nat));
}

/// A number in decimal.
pub fn decimal_of(n: u64) -> (v: Vec<char>)
    ensures
        v@ == decimal(n as nat),
{
    let mut v: Vec<char> = Vec::new();
    push_decimal(&mut v, n);
    assert(v@ =~= decimal(n as nat));
    v
}

/// The text filled up with spaces on the right to `n` characters.
pub open spec fn pad_right(s: Seq<char>, n: nat) -> Seq<char> {
    if s.len() < n {
        s + repeat(' ', (n - s.len()) as nat)
    } else {
        s
    }
}

/// The text filled up with spaces on the left to `n` characters.
pub open spec fn pad_left(s: Seq<char>, n: nat) -> Seq<char> {
    if s.len() < n {
        repeat(' ', (n - s.len()) as nat) + s
    } else {
        s
    }
}

/// Append a text filled up with spaces on the right to `n` characters.
pub fn push_padded_right(v: &mut Vec<char>, s: &[char], n: usize)
    ensures
        final(v)@ == old(v)@ + pad_right(s@, n as nat),
{
    let ghost before = v@;
    v.extend_from_slice(s);
    if s.len() < n {
        push_repeat(v, ' ', n - s.len());
    }
    assert(v@ =~= before + pad_right(s@, n as nat));
}

/// Append a text filled up with spaces on the left to `n` characters.
pub fn push_padded_left(v: &mut Vec<char>, s: &[char], n: usize)
    ensures
        final(v)@ == old(v)@ + pad_left(s@, n as nat),
{
    let ghost before = v@;
    if s.len() < n {
        push_repeat(v, ' ', n - s.len());
    }
    v.extend_from_slice(s);
    assert(v@ =~= before + pad_left(s@, n as nat));
}

/// The number of bytes of a character in UTF-8.
pub open spec fn byte_width(c: char) -> nat {
    if (c as u32) < 0x80 {
        1
    } else if (c as u32) < 0x800 {
        2
    } else if (c as u32) < 0x1_0000 {
        3
    } else {
        4
    }
}

/// The number of bytes of a text in UTF-8.
pub open spec fn byte_len(s: Seq<char>) -> nat
    decreases s.len(),
{
    if s.len() == 0 {
        0
    } else {
        byte_width(s[0]) + byte_len(s.drop_first())
    }
}

/// The length is that of the encoding.
pub proof fn lemma_byte_len_encode(s: Seq<char>)
    ensures
        byte_len(s) == encode_utf8(s).len(),
    decreases s.len(),
{
    if s.len() > 0 {
        lemma_byte_len_encode(s.drop_first());
        char_is_scalar(s[0]);
    }
}

/// Lengths add up.
pub proof fn lemma_byte_len_add(a: Seq<char>, b: Seq<char>)
    ensures
        byte_len(a + b) == byte_len(a) + byte_len(b),
    decreases a.len(),
{
    if a.len() == 0 {
        assert(a + b =~= b);
    } else {
        assert((a + b).drop_first() =~= a.drop_first() + b);
        lemma_byte_len_add(a.drop_first(), b);
    }
}

/// One character more.
pub proof fn lemma_byte_len_step(s: Seq<char>, i: int)
    requires
        0 <= i < s.len(),
    ensures
        byte_len(s.take(i + 1)) == byte_len(s.take(i)) + byte_width(s[i]),
        byte_len(s.take(i + 1)) <= byte_len(s),
{
    assert(s.take(i + 1) =~= s.take(i) + seq![s[i]]);
    lemma_byte_len_add(s.take(i), seq![s[i]]);
    assert(seq![s[i]].drop_first() =~= Seq::<char>::empty());
    assert(byte_len(seq![s[i]].drop_first()) == 0);
    assert(s =~= s.take(i + 1) + s.skip(i + 1));
    lemma_byte_len_add(s.take(i + 1), s.skip(i + 1));
}

/// The number of bytes of a character in UTF-8.
pub fn byte_width_of(c: char) -> (n: usize)
    ensures
        n == byte_width(c),
{
    let u: u32 = c as u32;
    if u < 0x80 {
        1
    } else if u < 0x800 {
        2
    } else if u < 0x1_0000 {
        3
    } else {
        4
    }
}

/// The number of bytes of a text in UTF-8.
pub fn byte_len_of(s: &str) -> (n: usize)
    ensures
        n == byte_len(s@),
{
    proof {
        lemma_byte_len_encode(s@);
    }
    s.as_bytes().len()
}

/// The byte position of character `i`.
pub fn byte_offset(s: &str, chars: &[char], i: usize) -> (b: usize)
    requires
        chars@ == s@,
        i <= s@.len(),
    ensures
        b == byte_len(s@.take(i as int)),
{
    let total: usize = byte_len_of(s);
    let mut b: usize = 0;
    let mut j: usize = 0;
    assert(s@.take(0) =~= Seq::<char>::empty());
    while j < i
        invariant
            j <= i,
            i <= s@.len(),
            chars@ == s@,
            total == byte_len(s@),
            b == byte_len(s@.take(j as int)),
        decreases i - j,
    {
        proof {
            lemma_byte_len_step(s@, j as int);
        }
        b = b + byte_width_of(chars[j]);
        j += 1;
    }
    b
}

/// `j` characters take `b` bytes.
pub open spec fn at_byte(s: Seq<char>, j: int, b: int) -> bool {
    0 <= j <= s.len() && byte_len(s.take(j)) == b
}

/// More characters take more bytes.
pub proof fn lemma_at_byte_unique(s: Seq<char>, i: int, j: int)
    requires
        0 <= i <= j <= s.len(),
    ensures
        byte_len(s.take(i)) + (j - i) <= byte_len(s.take(j)),
    decreases j - i,
{
    if i < j {
        lemma_at_byte_unique(s, i, j - 1);
        lemma_byte_len_step(s, j - 1);
    }
}

/// The character position of byte `b`, if a character starts there or the text
/// ends there.
pub fn char_index(s: &str, chars: &[char], b: usize) -> (r: Option<usize>)
    requires
        chars@ == s@,
    ensures
        match r {
            Some(j) => at_byte(s@, j as int, b as int),
            None => forall|j: int| !at_byte(s@, j, b as int),
        },
{
    let total: usize = byte_len_of(s);
    let n: usize = chars.len();
    let mut at: usize = 0;
    let mut j: usize = 0;
    assert(s@.take(0) =~= Seq::<char>::empty());
    while j < n && at < b
        invariant
            j <= n,
            n == s@.len(),
            chars@ == s@,
            total == byte_len(s@),
            at == byte_len(s@.take(j as int)),
            forall|q: int| 0 <= q < j ==> byte_len(#[trigger] s@.take(q)) < b,
        decreases n - j,
    {
        proof {
            lemma_byte_len_step(s@, j as int);
        }
        at = at + byte_width_of(chars[j]);
        j += 1;
    }
    if at == b {
        return Some(j);
    }
    proof {
        assert forall|q: int| !at_byte(s@, q, b as int) by {
            if 0 <= q <= s@.len() {
                if q < j {
                    assert(byte_len(s@.take(q)) < b);
                } else {
                    lemma_at_byte_unique(s@, j as int, q);
                }
            }
        }
    }
    None
}

/// Text `a` comes before `b` or is the same, character by character.
pub open spec fn text_le(a: Seq<char>, b: Seq<char>) -> bool
    decreases a.len(),
{
    if a.len() == 0 {
        true
    } else if b.len() == 0 {
        false
    } else if a[0] != b[0] {
        a[0] < b[0]
    } else {
        text_le(a.skip(1), b.skip(1))
    }
}

/// Whether text `a` comes before `b` or is the same.
pub fn is_text_le(a: &[char], b: &[char]) -> (r: bool)
    ensures
        r == text_le(a@, b@),
{
    let mut i: usize = 0;
    assert(a@.skip(0) =~= a@ && b@.skip(0) =~= b@);
    while i < a.len() && i < b.len() && a[i] == b[i]
        invariant
            i <= a@.len(),
            i <= b@.len(),
            text_le(a@, b@) == text_le(a@.skip(i as int), b@.skip(i as int)),
        decreases a@.len() - i,
    {
        assert(a@.skip(i as int).skip(1) =~= a@.skip(i + 1));
        assert(b@.skip(i as int).skip(1) =~= b@.skip(i + 1));
        i += 1;
    }
    if i >= a.len() {
        true
    } else if i >= b.len() {
        false
    } else {
        a[i] < b[i]
    }
}

pub proof fn lemma_text_le_total(a: Seq<char>, b: Seq<char>)
    ensures
        text_le(a, b) || text_le(b, a),
    decreases a.len(),
{
    if a.len() > 0 && b.len() > 0 && a[0] == b[0] {
        lemma_text_le_total(a.skip(1), b.skip(1));
    }
}

pub proof fn lemma_text_le_trans(a: Seq<char>, b: Seq<char>, c: Seq<char>)
    requires
        text_le(a, b),
        text_le(b, c),
    ensures
        text_le(a, c),
    decreases a.len(),
{
    if a.len() > 0 && b.len() > 0 && c.len() > 0 && a[0] == b[0] && b[0] == c[0] {
        lemma_text_le_trans(a.skip(1), b.skip(1), c.skip(1));
    }
}

/// The texts are in order.
pub open spec fn texts_sorted(v: Seq<Seq<char>>) -> bool {
    forall|i: int, j: int| 0 <= i < j < v.len() ==> text_le(#[trigger] v[i], #[trigger] v[j])
}

/// Insert a text into sorted texts, behind those that are the same.
fn insert_sorted(v: &mut Vec<Vec<char>>, t: Vec<char>)
    requires
        texts_sorted(texts(old(v)@)),
    ensures
        texts_sorted(texts(final(v)@)),
        texts(final(v)@).to_multiset() == texts(old(v)@).push(t@).to_multiset(),
{
    let ghost before = texts(v@);
    let ghost x = t@;
    let mut i: usize = v.len();
    while i > 0 && !is_text_le(v[i - 1].as_slice(), t.as_slice())
        invariant
            i <= v@.len(),
            before == texts(v@),
            x == t@,
            forall|j: int| i <= j < v@.len() ==> !text_le(#[trigger] before[j], x),
        decreases i,
    {
        i -= 1;
    }
    proof {
        if i > 0 {
            assert(text_le(before[i - 1], x));
        }
        assert forall|j: int| 0 <= j < i implies text_le(#[trigger] before[j], x) by {
            if j < i - 1 {
                assert(text_le(before[j], before[i - 1]));
                lemma_text_le_trans(before[j], before[i - 1], x);
            }
        }
        assert forall|j: int| i <= j < before.len() implies text_le(x, #[trigger] before[j]) by {
            lemma_text_le_total(before[j], x);
        }
    }
    v.insert(i, t);
    proof {
        let after = texts(v@);
        assert(after =~= before.insert(i as int, x));
        assert forall|a: int, b: int| 0 <= a < b < after.len() implies text_le(
            #[trigger] after[a],
            #[trigger] after[b],
        ) by {
            if a < i && b == i {
                assert(text_le(before[a], x));
            } else if a == i && b > i {
                assert(text_le(x, before[b - 1]));
            } else if a < i && b < i {
                assert(text_le(before[a], before[b]));
            } else if a < i && b > i {
                assert(text_le(before[a], before[b - 1]));
            } else {
                assert(text_le(before[a - 1], before[b - 1]));
            }
        }
        vstd::seq_lib::to_multiset_insert(before, i as int, x);
        before.to_multiset_ensures();
        assert(before.push(x).to_multiset() =~= before.to_multiset().insert(x));
    }
}

/// The texts in order.
pub fn sort_texts(v: Vec<Vec<char>>) -> (out: Vec<Vec<char>>)
    ensures
        texts_sorted(texts(out@)),
        texts(out@).to_multiset() == texts(v@).to_multiset(),
{
    let mut out: Vec<Vec<char>> = Vec::new();
    let mut i: usize = 0;
    assert(texts(out@) =~= texts(v@).take(0));
    while i < v.len()
        invariant
            i <= v@.len(),
            texts_sorted(texts(out@)),
            texts(out@).to_multiset() == texts(v@).take(i as int).to_multiset(),
        decreases v@.len() - i,
    {
        let ghost before = texts(out@);
        let t: Vec<char> = slice_of(v[i].as_slice(), 0, v[i].len());
        assert(t@ =~= v@[i as int]@);
        insert_sorted(&mut out, t);
        i += 1;
        proof {
            let all = texts(v@);
            assert(all.take(i as int) =~= all.take(i - 1).push(t@));
            before.to_multiset_ensures();
            all.take(i - 1).to_multiset_ensures();
            assert(before.push(t@).to_multiset() =~= before.to_multiset().insert(t@));
            assert(all.take(i - 1).push(t@).to_multiset() =~= all.take(i - 1).to_multiset().insert(
                t@,
            ));
        }
    }
    assert(texts(v@).take(i as int) =~= texts(v@));
    out
}

/// The strings of some texts.
pub fn strings_of(v: &Vec<Vec<char>>) -> (out: Vec<String>)
    ensures
        strings(out@) == texts(v@),
{
    let mut out: Vec<String> = Vec::new();
    let mut i: usize = 0;
    while i < v.len()
        invariant
            i <= v@.len(),
            strings(out@) =~= texts(v@).take(i as int),
        decreases v@.len() - i,
    {
        let ghost before = strings(out@);
        let t: String = text_of(v[i].as_slice());
        let ghost tv = t@;
        out.push(t);
        i += 1;
        assert(strings(out@) =~= before.push(tv));
    }
    assert(texts(v@).take(i as int) =~= texts(v@));
    out
}

/// A number as text.
pub fn number(n: u64) -> (s: String)
    ensures
        s@ == decimal(n as nat),
{
    text_of(decimal_of(n).as_slice())
}

/// An optional text.
pub open spec fn text_option(t: Option<String>) -> Option<Seq<char>> {
    match t {
        Some(s) => Some(s@),
        None => None,
    }
}

/// A copy of an optional string.
pub fn copy_option(t: &Option<String>) -> (r: Option<String>)
    ensures
        text_option(r) == text_option(*t),
{
    match t {
        Some(s) => Some(s.clone()),
        None => None,
    }
}

/// Whether two lists of strings hold the same texts.
pub fn same_strings(a: &[String], b: &[String]) -> (r: bool)
    ensures
        r == (strings(a@) == strings(b@)),
{
    if a.len() != b.len() {
        assert(strings(a@).len() != strings(b@).len());
        return false;
    }
    let mut i: usize = 0;
    while i < a.len()
        invariant
            i <= a@.len(),
            a@.len() == b@.len(),
            forall|j: int| 0 <= j < i ==> (#[trigger] a@[j])@ == b@[j]@,
        decreases a@.len() - i,
    {
        if !same(a[i].as_str(), b[i].as_str()) {
            assert(strings(a@)[i as int] != strings(b@)[i as int]);
            return false;
        }
        i += 1;
    }
    assert(strings(a@) =~= strings(b@));
    true
}

/// One character as text.
pub fn char_text(c: char) -> (s: String)
    ensures
        s@ == seq![c],
{
    let mut s: String = String::new();
    s.push(c);
    assert(s@ =~= seq![c]);
    s
}

/// A piece of text without a carriage return at its end.
pub open spec fn without_return(s: Seq<char>) -> Seq<char> {
    if s.len() > 0 && s.last() == '\r' {
        s.drop_last()
    } else {
        s
    }
}

/// The lines of a text: what stands before each newline, without a carriage
/// return at its end, and what stands behind the last, if anything.
pub open spec fn lines(s: Seq<char>) -> Seq<Seq<char>> {
    let pieces = split(s, '\n');
    let ended = pieces.drop_last().map_values(|l: Seq<char>| without_return(l));
    if pieces.last().len() == 0 {
        ended
    } else {
        ended.push(pieces.last())
    }
}

/// The lines of a text.
pub fn lines_of(s: &[char]) -> (out: Vec<Vec<char>>)
    ensures
        texts(out@) == lines(s@),
{
    let pieces: Vec<Vec<char>> = split_of(s, '\n');
    let ghost all = split(s@, '\n');
    let ghost ended = all.drop_last().map_values(|l: Seq<char>| without_return(l));
    let n: usize = pieces.len();
    assert(all.len() == n);
    let mut out: Vec<Vec<char>> = Vec::new();
    let mut i: usize = 0;
    while i + 1 < n
        invariant
            i < n,
            n == pieces@.len(),
            texts(pieces@) == all,
            ended == all.drop_last().map_values(|l: Seq<char>| without_return(l)),
            texts(out@) =~= ended.take(i as int),
        decreases n - i,
    {
        let ghost before = texts(out@);
        let len: usize = pieces[i].len();
        assert(all[i as int] == pieces@[i as int]@);
        let end: usize = if len > 0 && pieces[i][len - 1] == '\r' {
            len - 1
        } else {
            len
        };
        let l: Vec<char> = slice_of(pieces[i].as_slice(), 0, end);
        let ghost lv = l@;
        assert(lv =~= without_return(all[i as int]));
        assert(lv == ended[i as int]);
        out.push(l);
        i += 1;
        assert(texts(out@) =~= before.push(lv));
    }
    assert(ended.take(i as int) =~= ended);
    let len: usize = pieces[n - 1].len();
    assert(all.last() == pieces@[n - 1]@);
    if len > 0 {
        let l: Vec<char> = slice_of(pieces[n - 1].as_slice(), 0, len);
        let ghost lv = l@;
        assert(lv =~= all.last());
        out.push(l);
        assert(texts(out@) =~= ended.push(lv));
    }
    out
}

/// Whether a text is the same as another, whatever the case of its ASCII letters.
pub open spec fn same_but_case(a: Seq<char>, b: Seq<char>) -> bool {
    a.len() == b.len() && forall|i: int|
        0 <= i < a.len() ==> ascii_lower(#[trigger] a[i]) == ascii_lower(b[i])
}

/// A character with an ASCII letter made small.
pub open spec fn ascii_lower(c: char) -> char {
    if 'A' <= c && c <= 'Z' {
        (c as u32 + 32) as char
    } else {
        c
    }
}

fn lower_code(c: char) -> (n: u32)
    ensures
        n == ascii_lower(c) as u32,
{
    if 'A' <= c && c <= 'Z' {
        c as u32 + 32
    } else {
        c as u32
    }
}

/// Whether a text is the same as another, whatever the case of its ASCII letters.
pub fn is_same_but_case(a: &[char], b: &[char]) -> (r: bool)
    ensures
        r == same_but_case(a@, b@),
{
    if a.len() != b.len() {
        return false;
    }
    let mut i: usize = 0;
    while i < a.len()
        invariant
            i <= a@.len(),
            a@.len() == b@.len(),
            forall|k: int| 0 <= k < i ==> ascii_lower(#[trigger] a@[k]) == ascii_lower(b@[k]),
        decreases a@.len() - i,
    {
        if lower_code(a[i]) != lower_code(b[i]) {
            assert(ascii_lower(a@[i as int]) != ascii_lower(b@[i as int]));
            return false;
        }
        i += 1;
    }
    true
}

/// The character that starts at a byte of a text, or its end.
pub open spec fn char_at(s: Seq<char>, b: int) -> Option<int> {
    if exists|j: int| at_byte(s, j, b) {
        Some(choose|j: int| at_byte(s, j, b))
    } else {
        None
    }
}

/// A byte position belongs to one character.
pub proof fn lemma_char_at(s: Seq<char>, j: int, b: int)
    requires
        at_byte(s, j, b),
    ensures
        char_at(s, b) == Some(j),
{
    let k = choose|k: int| at_byte(s, k, b);
    if k < j {
        lemma_at_byte_unique(s, k, j);
    } else if j < k {
        lemma_at_byte_unique(s, j, k);
    }
}

/// Later bytes belong to later characters.
pub proof fn lemma_char_at_order(s: Seq<char>, i: int, a: int, j: int, b: int)
    requires
        at_byte(s, i, a),
        at_byte(s, j, b),
        a < b,
    ensures
        i < j,
{
    if j <= i {
        lemma_at_byte_unique(s, j, i);
    }
}

} // verus!
