//! What is offered while a prompt is typed, and what taking an offer does.
use crate::complete::{
    applied,
    completes,
    dir_part,
    file_label,
    file_labels,
    last_mention,
    listed_dir,
    lowered,
    mention_at,
    offered,
    palette_entries,
    slash_matches,
    CompletionView,
    DirEntry,
    MenuKind,
};
use crate::text::{ascii_lower, byte_len, char_at, lemma_char_at, stands_at, text_le, white};
use vstd::prelude::*;

verus! {

/// A text starts with another.
pub open spec fn starts_with(s: Seq<char>, p: Seq<char>) -> bool {
    p.len() <= s.len() && s.take(p.len() as int) == p
}

/// One of the commands that are listed.
pub open spec fn listed_command(name: Seq<char>) -> bool {
    exists|i: int| 0 <= i < palette_entries().len() && #[trigger] palette_entries()[i].0@ == name
}

proof fn lemma_matches(prefix: Seq<char>, n: nat, name: Seq<char>)
    requires
        n <= palette_entries().len(),
    ensures
        slash_matches(prefix, n).contains(name) <==> exists|i: int|
            0 <= i < n && #[trigger] palette_entries()[i].0@ == name && (prefix.len() == 0
                || stands_at(name, prefix, 1)),
    decreases n,
{
    if n > 0 {
        lemma_matches(prefix, (n - 1) as nat, name);
        let before = slash_matches(prefix, (n - 1) as nat);
        let last = palette_entries()[n - 1].0@;
        let all = slash_matches(prefix, n);
        if all.contains(name) {
            let k = choose|k: int| 0 <= k < all.len() && all[k] == name;
            if k < before.len() {
                assert(before[k] == name);
                assert(before.contains(name));
            } else {
                assert(palette_entries()[n - 1].0@ == name);
            }
        }
        if exists|i: int|
            0 <= i < n && #[trigger] palette_entries()[i].0@ == name && (prefix.len() == 0
                || stands_at(name, prefix, 1)) {
            let i = choose|i: int|
                0 <= i < n && #[trigger] palette_entries()[i].0@ == name && (prefix.len() == 0
                    || stands_at(name, prefix, 1));
            if i < n - 1 {
                assert(before.contains(name));
                let k = choose|k: int| 0 <= k < before.len() && before[k] == name;
                assert(all[k] == name);
            } else {
                assert(all[all.len() - 1] == name);
            }
        }
    }
}

proof fn lemma_commands_start_with_a_slash(i: int)
    requires
        0 <= i < palette_entries().len(),
    ensures
        palette_entries()[i].0@.len() > 0,
        palette_entries()[i].0@[0] == '/',
{
    if i == 0 {
        reveal_strlit("/clear");
    } else if i == 1 {
        reveal_strlit("/compact");
    } else if i == 2 {
        reveal_strlit("/context");
    } else if i == 3 {
        reveal_strlit("/goal");
    } else if i == 4 {
        reveal_strlit("/loop");
    } else if i == 5 {
        reveal_strlit("/rewind");
    } else if i == 6 {
        reveal_strlit("/cost");
    } else if i == 7 {
        reveal_strlit("/usage");
    } else if i == 8 {
        reveal_strlit("/menu");
    } else if i == 9 {
        reveal_strlit("/status");
    } else if i == 10 {
        reveal_strlit("/model");
    } else if i == 11 {
        reveal_strlit("/mode");
    } else if i == 12 {
        reveal_strlit("/permissions");
    } else if i == 13 {
        reveal_strlit("/select");
    } else if i == 14 {
        reveal_strlit("/doctor");
    } else if i == 15 {
        reveal_strlit("/history");
    } else if i == 16 {
        reveal_strlit("/export");
    } else if i == 17 {
        reveal_strlit("/quit");
    } else if i == 18 {
        reveal_strlit("/resume");
    } else if i == 19 {
        reveal_strlit("/login");
    } else if i == 20 {
        reveal_strlit("/memory");
    } else if i == 21 {
        reveal_strlit("/terminal-setup");
    } else if i == 22 {
        reveal_strlit("/approval");
    } else if i == 23 {
        reveal_strlit("/review");
    } else if i == 24 {
        reveal_strlit("/pr");
    } else if i == 25 {
        reveal_strlit("/init");
    } else if i == 26 {
        reveal_strlit("/diff");
    } else if i == 27 {
        reveal_strlit("/release-notes");
    } else if i == 28 {
        reveal_strlit("/bug");
    } else if i == 29 {
        reveal_strlit("/doc");
    } else if i == 30 {
        reveal_strlit("/docs");
    } else if i == 31 {
        reveal_strlit("/fix");
    } else if i == 32 {
        reveal_strlit("/explain");
    } else if i == 33 {
        reveal_strlit("/edit");
    } else if i == 34 {
        reveal_strlit("/codebase");
    } else {
        reveal_strlit("/help");
    }
}

proof fn lemma_stands_behind_the_slash(name: Seq<char>, w: Seq<char>)
    requires
        name.len() > 0,
        name[0] == '/',
    ensures
        (w.len() == 0 || stands_at(name, w, 1)) <==> starts_with(name, seq!['/'] + w),
{
    let p = seq!['/'] + w;
    if stands_at(name, w, 1) {
        assert(name.take(p.len() as int) =~= p) by {
            assert forall|k: int| 0 <= k < p.len() implies name.take(p.len() as int)[k] == p[k] by {
                if k > 0 {
                    assert(name.subrange(1, 1 + w.len() as int)[k - 1] == w[k - 1]);
                }
            }
        }
    } else if w.len() == 0 {
        assert(name.take(1) =~= p);
    }
    if starts_with(name, p) {
        assert(name.subrange(1, 1 + w.len() as int) =~= w) by {
            assert forall|k: int| 0 <= k < w.len() implies name.subrange(1, 1 + w.len() as int)[k] == w[k] by {
                assert(name.take(p.len() as int)[k + 1] == p[k + 1]);
            }
        }
    }
}

/// Behind a slash at the start just the listed commands are offered that start
/// with what is typed, in order, to replace all of it.
pub proof fn a_slash_offers_commands(
    w: Seq<char>,
    entries: Seq<DirEntry>,
    r: Option<CompletionView>,
    name: Seq<char>,
)
    requires
        forall|i: int| 0 <= i < w.len() ==> #[trigger] w[i] != ' ',
        completes(seq!['/'] + w, entries, r),
    ensures
        r is Some ==> {
            &&& r->0.kind == MenuKind::Slash
            &&& r->0.replace_start == 0
            &&& r->0.candidates.contains(name) <==> listed_command(name) && starts_with(
                name,
                seq!['/'] + w,
            )
            &&& forall|i: int, j: int|
                0 <= i < j < r->0.candidates.len() ==> text_le(
                    #[trigger] r->0.candidates[i],
                    #[trigger] r->0.candidates[j],
                )
        },
        r is None ==> !(listed_command(name) && starts_with(name, seq!['/'] + w)),
{
    let b = seq!['/'] + w;
    assert(b.skip(1) =~= w);
    assert(!w.contains(' '));
    assert(b.take(0) =~= Seq::<char>::empty());
    let n = palette_entries().len();
    lemma_matches(w, n, name);
    let found = slash_matches(w, n);
    if listed_command(name) {
        let i = choose|i: int|
            0 <= i < palette_entries().len() && #[trigger] palette_entries()[i].0@ == name;
        lemma_commands_start_with_a_slash(i);
        lemma_stands_behind_the_slash(name, w);
    }
    assert(found.contains(name) <==> listed_command(name) && starts_with(name, b));
    if let Some(c) = r {
        vstd::seq_lib::to_multiset_contains(c.candidates, name);
        vstd::seq_lib::to_multiset_contains(found, name);
    } else {
        assert(found.len() == 0);
    }
}

proof fn lemma_mention_found(b: Seq<char>, i: int, n: nat)
    requires
        mention_at(b, i),
        i < n <= b.len(),
    ensures
        last_mention(b, n) == Some(i),
    decreases n,
{
    if i < n - 1 {
        if mention_at(b, n - 1) {
            crate::complete::one_mention_at_most(b, i, n - 1);
        }
        lemma_mention_found(b, i, (n - 1) as nat);
    }
}

proof fn lemma_dir_part(dir: Seq<char>, leaf: Seq<char>)
    requires
        dir.len() == 0 || dir.last() == '/',
        forall|i: int| 0 <= i < leaf.len() ==> #[trigger] leaf[i] != '/',
    ensures
        dir_part(dir + leaf) == dir.len(),
        (dir + leaf).take(dir.len() as int) == dir,
        (dir + leaf).skip(dir.len() as int) == leaf,
    decreases leaf.len(),
{
    let s = dir + leaf;
    assert(s.take(dir.len() as int) =~= dir);
    assert(s.skip(dir.len() as int) =~= leaf);
    if leaf.len() == 0 {
        assert(s =~= dir);
    } else {
        assert(leaf[leaf.len() - 1] != '/');
        assert(s.drop_last() =~= dir + leaf.drop_last());
        assert forall|i: int| 0 <= i < leaf.drop_last().len() implies #[trigger] leaf.drop_last()[i]
            != '/' by {
            assert(leaf.drop_last()[i] == leaf[i]);
        }
        lemma_dir_part(dir, leaf.drop_last());
    }
}

/// A name begins with what is typed, whatever the case of English letters.
pub open spec fn begins_alike(name: Seq<char>, leaf: Seq<char>) -> bool {
    leaf.len() <= name.len() && forall|i: int|
        0 <= i < leaf.len() ==> ascii_lower(#[trigger] name[i]) == ascii_lower(leaf[i])
}

/// An entry is offered where its name begins with what is typed; one that starts
/// with a dot only where a dot is typed.
pub open spec fn wanted(name: Seq<char>, leaf: Seq<char>) -> bool {
    begins_alike(name, leaf) && (name.len() > 0 && name[0] == '.' ==> leaf.len() > 0 && leaf[0]
        == '.')
}

proof fn lemma_offered(dir: Seq<char>, leaf: Seq<char>, name: Seq<char>, is_dir: bool)
    requires
        dir.len() == 0 || dir.last() == '/',
        forall|i: int| 0 <= i < leaf.len() ==> #[trigger] leaf[i] != '/',
    ensures
        offered(dir + leaf, name) <==> wanted(name, leaf),
        file_label(dir + leaf, name, is_dir) == dir + name + (if is_dir {
            seq!['/']
        } else {
            Seq::empty()
        }),
{
    lemma_dir_part(dir, leaf);
    let p = dir + leaf;
    let n = dir.len() as int;
    if n < p.len() {
        assert(p[n] == leaf[0]);
    }
    let a = lowered(name);
    let b = lowered(leaf);
    if stands_at(a, b, 0) {
        assert forall|i: int| 0 <= i < leaf.len() implies ascii_lower(#[trigger] name[i])
            == ascii_lower(leaf[i]) by {
            assert(a.subrange(0, b.len() as int)[i] == b[i]);
        }
    }
    if begins_alike(name, leaf) {
        assert(a.subrange(0, b.len() as int) =~= b) by {
            assert forall|i: int| 0 <= i < b.len() implies a.subrange(0, b.len() as int)[i] == b[i] by {
                assert(ascii_lower(name[i]) == ascii_lower(leaf[i]));
            }
        }
    }
}

proof fn lemma_labels(dir: Seq<char>, leaf: Seq<char>, entries: Seq<DirEntry>, n: nat, t: Seq<char>)
    requires
        n <= entries.len(),
        dir.len() == 0 || dir.last() == '/',
        forall|i: int| 0 <= i < leaf.len() ==> #[trigger] leaf[i] != '/',
    ensures
        file_labels(dir + leaf, entries, n).contains(t) <==> exists|i: int|
            0 <= i < n && wanted((#[trigger] entries[i]).name@, leaf) && t == dir + entries[i].name@
                + (if entries[i].is_dir {
                seq!['/']
            } else {
                Seq::empty()
            }),
    decreases n,
{
    if n > 0 {
        lemma_labels(dir, leaf, entries, (n - 1) as nat, t);
        let e = entries[n - 1];
        lemma_offered(dir, leaf, e.name@, e.is_dir);
        let before = file_labels(dir + leaf, entries, (n - 1) as nat);
        let all = file_labels(dir + leaf, entries, n);
        if all.contains(t) {
            let k = choose|k: int| 0 <= k < all.len() && all[k] == t;
            if k < before.len() {
                assert(before[k] == t);
                assert(before.contains(t));
            } else {
                assert(wanted(entries[n - 1].name@, leaf));
            }
        }
        if before.contains(t) {
            let k = choose|k: int| 0 <= k < before.len() && before[k] == t;
            assert(all[k] == t);
        }
        if offered(dir + leaf, e.name@) {
            assert(all[all.len() - 1] == file_label(dir + leaf, e.name@, e.is_dir));
        }
    } else {
        assert(!file_labels(dir + leaf, entries, n).contains(t));
    }
}

/// Behind an at sign that starts a word just the entries of the named directory
/// are offered that begin with what is typed, in order, with a slash behind a
/// directory, to replace the word.
pub proof fn an_at_sign_offers_files(
    a: Seq<char>,
    dir: Seq<char>,
    leaf: Seq<char>,
    entries: Seq<DirEntry>,
    r: Option<CompletionView>,
    t: Seq<char>,
)
    requires
        a.len() == 0 || white(a.last()),
        a.len() == 0 || a[0] != '/',
        dir.len() == 0 || dir.last() == '/',
        forall|i: int| 0 <= i < dir.len() ==> !white(#[trigger] dir[i]),
        forall|i: int| 0 <= i < leaf.len() ==> #[trigger] leaf[i] != '/' && !white(leaf[i]),
        completes(a + seq!['@'] + (dir + leaf), entries, r),
    ensures
        ({
            let there = exists|i: int|
                0 <= i < entries.len() && wanted((#[trigger] entries[i]).name@, leaf) && t == dir
                    + entries[i].name@ + (if entries[i].is_dir {
                    seq!['/']
                } else {
                    Seq::empty()
                });
            &&& r is Some ==> r->0.kind == MenuKind::File && r->0.replace_start == byte_len(a) && (
            r->0.candidates.contains(t) <==> there)
            &&& r is None ==> !there
        }),
{
    let w = dir + leaf;
    let b = a + seq!['@'] + w;
    let i = a.len() as int;
    assert(b[i] == '@');
    assert forall|j: int| i < j < b.len() implies !white(#[trigger] b[j]) by {
        let k = j - i - 1;
        assert(b[j] == w[k]);
        if k < dir.len() {
            assert(w[k] == dir[k]);
        } else {
            assert(w[k] == leaf[k - dir.len()]);
        }
    }
    if i > 0 {
        assert(b[i - 1] == a.last());
        assert(b[0] == a[0]);
    }
    assert(mention_at(b, i));
    lemma_mention_found(b, i, b.len());
    assert(crate::complete::trigger(b) == Some((MenuKind::File, i)));
    assert(b.skip(i + 1) =~= w);
    assert(b.take(i) =~= a);
    lemma_labels(dir, leaf, entries, entries.len(), t);
    let found = file_labels(w, entries, entries.len());
    if let Some(c) = r {
        vstd::seq_lib::to_multiset_contains(c.candidates, t);
        vstd::seq_lib::to_multiset_contains(found, t);
    } else {
        assert(found.len() == 0);
    }
}

/// The directory that is looked into is what is typed up to the last slash,
/// without a leading dot and slash.
pub proof fn which_directory_is_listed(dir: Seq<char>, leaf: Seq<char>)
    requires
        dir.len() == 0 || dir.last() == '/',
        forall|i: int| 0 <= i < leaf.len() ==> #[trigger] leaf[i] != '/',
    ensures
        !starts_with(dir, seq!['.', '/']) ==> listed_dir(dir + leaf) == dir,
        starts_with(dir, seq!['.', '/']) ==> listed_dir(dir + leaf) == dir.skip(2),
{
    lemma_dir_part(dir, leaf);
    let d = seq!['.', '/'];
    if dir.len() >= 2 {
        assert(dir.subrange(0, 2) =~= dir.take(2));
    }
}

/// Nothing is offered where there is no at sign and the text does not start with a
/// slash, or holds a space.
pub proof fn plain_text_offers_nothing(
    b: Seq<char>,
    entries: Seq<DirEntry>,
    r: Option<CompletionView>,
)
    requires
        b.len() == 0 || b[0] != '/' || exists|i: int| 1 <= i < b.len() && #[trigger] b[i] == ' ',
        forall|i: int| 0 <= i < b.len() ==> #[trigger] b[i] != '@',
        completes(b, entries, r),
    ensures
        r is None,
{
    lemma_no_mention(b, b.len());
    if b.len() > 0 && b[0] == '/' {
        let i = choose|i: int| 1 <= i < b.len() && #[trigger] b[i] == ' ';
        assert(b.skip(1)[i - 1] == ' ');
    }
}

proof fn lemma_no_mention(b: Seq<char>, n: nat)
    requires
        n <= b.len(),
        forall|i: int| 0 <= i < b.len() ==> #[trigger] b[i] != '@',
    ensures
        last_mention(b, n) is None,
    decreases n,
{
    if n > 0 {
        assert(b[n - 1] != '@');
        lemma_no_mention(b, (n - 1) as nat);
    }
}

/// Taking a file puts it behind an at sign in place of the word, taking a command
/// puts it in place of the text.
pub proof fn what_taking_an_offer_does(
    a: Seq<char>,
    w: Seq<char>,
    candidates: Seq<Seq<char>>,
    k: int,
)
    requires
        0 <= k < candidates.len(),
    ensures
        applied(
            a + w,
            CompletionView { kind: MenuKind::File, replace_start: byte_len(a), candidates },
            k,
        ) == Some(a + seq!['@'] + candidates[k]),
        applied(
            w,
            CompletionView { kind: MenuKind::Slash, replace_start: 0, candidates },
            k,
        ) == Some(candidates[k]),
{
    let b = a + w;
    assert(b.take(a.len() as int) =~= a);
    lemma_char_at(b, a.len() as int, byte_len(a) as int);
    let e = Seq::<char>::empty();
    assert(w.take(0) =~= e);
    lemma_char_at(w, 0, 0);
    assert(e + e + candidates[k] =~= candidates[k]);
    assert(char_at(w, 0) == Some(0int));
}

} // verus!
