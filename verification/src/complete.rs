//! Completion for the composer: `@` file mentions and `/` slash commands.
//!
//! Everything here is a plain function of the buffer and, for files, of a
//! directory listing that the caller reads: [`listing_dir`] says which
//! directory, [`complete`] ranks what it holds, [`apply`] puts the chosen
//! candidate into the buffer.
use crate::text::{
    ascii_lower,
    at_byte,
    byte_len,
    byte_offset,
    char_at,
    char_index,
    chars_of,
    holds,
    is_white,
    lemma_char_at,
    matches_at,
    push_text,
    slice_of,
    sort_texts,
    stands_at,
    strings,
    strings_of,
    text_of,
    text_option,
    texts,
    texts_sorted,
    white,
};
use vstd::prelude::*;
use vstd::slice::slice_subrange;
use vstd::string::*;

verus! {

/// The kind of completion menu to show.
#[derive(Debug, Clone, Copy, PartialEq, Eq, Structural)]
pub enum MenuKind {
    /// `@path...`: file and directory mentions.
    File,
    /// `/cmd...`: slash commands.
    Slash,
}

/// A completion: what the menu shows and which part of the buffer it replaces.
#[derive(Debug, PartialEq, Eq)]
pub struct Completion {
    pub kind: MenuKind,
    /// Byte position of the `@` or `/`; the end of the buffer is the other end
    /// of what is replaced.
    pub replace_start: usize,
    /// The candidates in order.
    pub candidates: Vec<String>,
}

/// What a completion holds.
#[verifier::ext_equal]
pub struct CompletionView {
    pub kind: MenuKind,
    pub replace_start: nat,
    pub candidates: Seq<Seq<char>>,
}

impl View for Completion {
    type V = CompletionView;

    open spec fn view(&self) -> CompletionView {
        CompletionView {
            kind: self.kind,
            replace_start: self.replace_start as nat,
            candidates: strings(self.candidates@),
        }
    }
}

/// The slash commands, each with its description.
pub open spec fn palette_entries() -> Seq<(&'static str, &'static str)> {
    seq![
        ("/clear", "Clear the transcript and start a fresh turn"),
        ("/compact", "Compact the conversation (free context, keep a summary)"),
        ("/context", "Show returned context tokens (or preflight estimate)"),
        ("/goal", "Show, set or clear the session goal"),
        ("/loop", "Keep working toward the session goal"),
        ("/rewind", "Restore files changed in the last turn (Write/Edit only)"),
        ("/cost", "Show token usage for the last turn"),
        ("/usage", "Show token usage (alias of /cost)"),
        ("/menu", "Open the menu: projects, sessions, and settings"),
        ("/status", "Show session status (model, mode, cwd, busy)"),
        ("/model", "Show the active model"),
        ("/mode", "Show or cycle the permission mode"),
        ("/permissions", "Show the active permission mode and rule hints"),
        ("/select", "Toggle mouse capture so the terminal can select text"),
        ("/doctor", "Run a self-check of the environment and config"),
        ("/history", "Summarize the transcript length so far"),
        ("/export", "Export the transcript to a file"),
        ("/quit", "Quit the session"),
        ("/resume", "Resume a previous conversation"),
        ("/login", "Show authentication status"),
        ("/memory", "Show the memory / AGENTS.md location"),
        ("/terminal-setup", "Show terminal setup hints for Shift+Enter"),
        ("/approval", "Show approval / permission mode"),
        ("/review", "Review the pending code changes on the current branch"),
        ("/pr", "Create a pull request for the current branch"),
        ("/init", "Generate an AGENTS.md documenting the codebase"),
        ("/diff", "Show the diff of pending changes"),
        ("/release-notes", "Summarize release notes from recent git history"),
        ("/bug", "Help report a bug from recent errors"),
        ("/doc", "Generate documentation for the code"),
        ("/docs", "Read and summarize documentation"),
        ("/fix", "Find and fix bugs in the code"),
        ("/explain", "Explain the code"),
        ("/edit", "Apply edits to the code"),
        ("/codebase", "Summarize the structure of the codebase"),
        ("/help", "Show composer keybindings and slash commands"),
    ]
}

/// The slash commands, each with its description: the one list that the menu
/// and `/help` both show.
pub fn slash_palette() -> (v: Vec<(&'static str, &'static str)>)
    ensures
        v@ == palette_entries(),
{
    let v: Vec<(&'static str, &'static str)> = vec![
        ("/clear", "Clear the transcript and start a fresh turn"),
        ("/compact", "Compact the conversation (free context, keep a summary)"),
        ("/context", "Show returned context tokens (or preflight estimate)"),
        ("/goal", "Show, set or clear the session goal"),
        ("/loop", "Keep working toward the session goal"),
        ("/rewind", "Restore files changed in the last turn (Write/Edit only)"),
        ("/cost", "Show token usage for the last turn"),
        ("/usage", "Show token usage (alias of /cost)"),
        ("/menu", "Open the menu: projects, sessions, and settings"),
        ("/status", "Show session status (model, mode, cwd, busy)"),
        ("/model", "Show the active model"),
        ("/mode", "Show or cycle the permission mode"),
        ("/permissions", "Show the active permission mode and rule hints"),
        ("/select", "Toggle mouse capture so the terminal can select text"),
        ("/doctor", "Run a self-check of the environment and config"),
        ("/history", "Summarize the transcript length so far"),
        ("/export", "Export the transcript to a file"),
        ("/quit", "Quit the session"),
        ("/resume", "Resume a previous conversation"),
        ("/login", "Show authentication status"),
        ("/memory", "Show the memory / AGENTS.md location"),
        ("/terminal-setup", "Show terminal setup hints for Shift+Enter"),
        ("/approval", "Show approval / permission mode"),
        ("/review", "Review the pending code changes on the current branch"),
        ("/pr", "Create a pull request for the current branch"),
        ("/init", "Generate an AGENTS.md documenting the codebase"),
        ("/diff", "Show the diff of pending changes"),
        ("/release-notes", "Summarize release notes from recent git history"),
        ("/bug", "Help report a bug from recent errors"),
        ("/doc", "Generate documentation for the code"),
        ("/docs", "Read and summarize documentation"),
        ("/fix", "Find and fix bugs in the code"),
        ("/explain", "Explain the code"),
        ("/edit", "Apply edits to the code"),
        ("/codebase", "Summarize the structure of the codebase"),
        ("/help", "Show composer keybindings and slash commands"),
    ];
    assert(v@ =~= palette_entries());
    v
}

/// The buffer is a command being typed: a slash at the very start and no space.
pub open spec fn slash_trigger(b: Seq<char>) -> bool {
    b.len() > 0 && b[0] == '/' && !b.skip(1).contains(' ')
}

/// A mention being typed starts at `i`: an `@` at the start of a token, and no
/// white space after it.
pub open spec fn mention_at(b: Seq<char>, i: int) -> bool {
    0 <= i < b.len() && b[i] == '@' && (i == 0 || white(b[i - 1])) && forall|j: int|
        i < j < b.len() ==> !white(#[trigger] b[j])
}

/// The last position below `n` at which a mention starts.
pub open spec fn last_mention(b: Seq<char>, n: nat) -> Option<int>
    decreases n,
{
    if n == 0 {
        None
    } else if mention_at(b, n - 1) {
        Some(n - 1)
    } else {
        last_mention(b, (n - 1) as nat)
    }
}

/// What opens a menu with the caret at the end of the buffer: the kind and the
/// character position of the `@` or `/`.
pub open spec fn trigger(b: Seq<char>) -> Option<(MenuKind, int)> {
    if slash_trigger(b) {
        Some((MenuKind::Slash, 0))
    } else {
        match last_mention(b, b.len()) {
            Some(i) => Some((MenuKind::File, i)),
            None => None,
        }
    }
}

/// What opens a menu with the caret at the end of the buffer.
fn last_trigger(b: &[char]) -> (r: Option<(MenuKind, usize)>)
    ensures
        match r {
            Some((kind, i)) => trigger(b@) == Some((kind, i as int)) && i < b@.len(),
            None => trigger(b@) is None,
        },
{
    if b.len() > 0 && b[0] == '/' {
        let rest: &[char] = slice_subrange(b, 1, b.len());
        assert(rest@ =~= b@.skip(1));
        if !holds(rest, ' ') {
            return Some((MenuKind::Slash, 0));
        }
    }
    let mut i: usize = b.len();
    let mut one_token: bool = true;
    while i > 0
        invariant
            i <= b@.len(),
            !slash_trigger(b@),
            one_token <==> forall|j: int| i <= j < b@.len() ==> !white(#[trigger] b@[j]),
            last_mention(b@, b@.len()) == last_mention(b@, i as nat),
        decreases i,
    {
        if b[i - 1] == '@' && one_token && (i == 1 || is_white(b[i - 2])) {
            return Some((MenuKind::File, i - 1));
        }
        if is_white(b[i - 1]) {
            one_token = false;
        }
        i -= 1;
    }
    None
}

/// The commands among the first `n` whose name goes on with `prefix`.
pub open spec fn slash_matches(prefix: Seq<char>, n: nat) -> Seq<Seq<char>>
    decreases n,
{
    if n == 0 {
        Seq::empty()
    } else {
        let before = slash_matches(prefix, (n - 1) as nat);
        let name = palette_entries()[n - 1].0@;
        if prefix.len() == 0 || stands_at(name, prefix, 1) {
            before.push(name)
        } else {
            before
        }
    }
}

fn slash_candidates(prefix: &[char]) -> (out: Vec<Vec<char>>)
    ensures
        texts(out@) == slash_matches(prefix@, palette_entries().len()),
{
    let entries: Vec<(&'static str, &'static str)> = slash_palette();
    let mut out: Vec<Vec<char>> = Vec::new();
    let mut i: usize = 0;
    assert(texts(out@) =~= slash_matches(prefix@, 0));
    while i < entries.len()
        invariant
            i <= entries@.len(),
            entries@ == palette_entries(),
            texts(out@) == slash_matches(prefix@, i as nat),
        decreases entries@.len() - i,
    {
        let ghost before = texts(out@);
        let name: Vec<char> = chars_of(entries[i].0);
        let ghost nv = name@;
        if prefix.len() == 0 || matches_at(name.as_slice(), prefix, 1) {
            out.push(name);
            assert(texts(out@) =~= before.push(nv));
        }
        i += 1;
    }
    out
}

/// One entry of a directory.
#[derive(Debug, PartialEq, Eq)]
pub struct DirEntry {
    pub name: String,
    pub is_dir: bool,
}

/// One past the last `/`, or zero.
pub open spec fn dir_part(prefix: Seq<char>) -> int
    decreases prefix.len(),
{
    if prefix.len() == 0 {
        0
    } else if prefix.last() == '/' {
        prefix.len() as int
    } else {
        dir_part(prefix.drop_last())
    }
}

fn dir_part_of(prefix: &[char]) -> (n: usize)
    ensures
        n == dir_part(prefix@),
        n <= prefix@.len(),
{
    let mut n: usize = prefix.len();
    assert(prefix@.take(n as int) =~= prefix@);
    while n > 0 && prefix[n - 1] != '/'
        invariant
            n <= prefix@.len(),
            dir_part(prefix@) == dir_part(prefix@.take(n as int)),
        decreases n,
    {
        assert(prefix@.take(n as int).drop_last() =~= prefix@.take(n - 1));
        n -= 1;
    }
    n
}

/// The directory to list for a prefix, relative to the root: its part up to the
/// last `/`, without a `./` at the start.
pub open spec fn listed_dir(prefix: Seq<char>) -> Seq<char> {
    let dir = prefix.take(dir_part(prefix));
    if stands_at(dir, seq!['.', '/'], 0) {
        dir.skip(2)
    } else {
        dir
    }
}

/// The directory that [`complete`] needs listed, relative to the root, if the
/// buffer ends in a mention.
pub fn listing_dir(buffer: &str) -> (r: Option<String>)
    ensures
        match trigger(buffer@) {
            Some((MenuKind::File, i)) => r matches Some(d) && d@ == listed_dir(buffer@.skip(i + 1)),
            _ => r is None,
        },
{
    let b: Vec<char> = chars_of(buffer);
    match last_trigger(b.as_slice()) {
        Some((MenuKind::File, i)) => {
            let prefix: Vec<char> = slice_of(b.as_slice(), i + 1, b.len());
            assert(prefix@ =~= b@.skip(i + 1));
            let n: usize = dir_part_of(prefix.as_slice());
            let dir: Vec<char> = slice_of(prefix.as_slice(), 0, n);
            assert(dir@ =~= prefix@.take(n as int));
            let lead: [char; 2] = ['.', '/'];
            assert(lead@ =~= seq!['.', '/']);
            let from: usize = if matches_at(dir.as_slice(), lead.as_slice(), 0) {
                2
            } else {
                0
            };
            let cleaned: Vec<char> = slice_of(dir.as_slice(), from, dir.len());
            assert(cleaned@ =~= listed_dir(prefix@));
            Some(text_of(cleaned.as_slice()))
        },
        _ => None,
    }
}

/// The text with its ASCII letters in lower case.
pub open spec fn lowered(s: Seq<char>) -> Seq<char> {
    Seq::new(s.len(), |i: int| ascii_lower(s[i]))
}

fn lower_of(v: &[char]) -> (out: Vec<char>)
    ensures
        out@ == lowered(v@),
{
    let mut out: Vec<char> = Vec::new();
    let mut i: usize = 0;
    while i < v.len()
        invariant
            i <= v@.len(),
            out@ =~= lowered(v@).take(i as int),
        decreases v@.len() - i,
    {
        let c: char = v[i];
        if 'A' <= c && c <= 'Z' {
            let b: u8 = c as u8;
            assert(b as u32 == c as u32);
            out.push((b + 32) as char);
        } else {
            out.push(c);
        }
        i += 1;
    }
    assert(lowered(v@).take(i as int) =~= lowered(v@));
    out
}

/// Hidden entries are shown: the name typed so far, after the directory, starts
/// with a dot.
pub open spec fn shows_hidden(prefix: Seq<char>) -> bool {
    let n = dir_part(prefix);
    n < prefix.len() && prefix[n] == '.'
}

/// The entry is offered for the prefix.
pub open spec fn offered(prefix: Seq<char>, name: Seq<char>) -> bool {
    &&& shows_hidden(prefix) || !(name.len() > 0 && name[0] == '.')
    &&& stands_at(lowered(name), lowered(prefix.skip(dir_part(prefix))), 0)
}

/// The label of an entry: the directory as typed, the name, and a slash for a
/// directory so that typing can go on.
pub open spec fn file_label(prefix: Seq<char>, name: Seq<char>, is_dir: bool) -> Seq<char> {
    prefix.take(dir_part(prefix)) + name + (if is_dir {
        seq!['/']
    } else {
        Seq::empty()
    })
}

/// The labels of the offered entries among the first `n`.
pub open spec fn file_labels(prefix: Seq<char>, entries: Seq<DirEntry>, n: nat) -> Seq<Seq<char>>
    decreases n,
{
    if n == 0 {
        Seq::empty()
    } else {
        let before = file_labels(prefix, entries, (n - 1) as nat);
        let e = entries[n - 1];
        if offered(prefix, e.name@) {
            before.push(file_label(prefix, e.name@, e.is_dir))
        } else {
            before
        }
    }
}

/// The labels of the entries that are offered for the prefix.
fn file_candidates(prefix: &[char], entries: &[DirEntry]) -> (out: Vec<Vec<char>>)
    ensures
        texts(out@) == file_labels(prefix@, entries@, entries@.len()),
{
    let n: usize = dir_part_of(prefix);
    let dir: Vec<char> = slice_of(prefix, 0, n);
    assert(dir@ =~= prefix@.take(n as int));
    let name: Vec<char> = slice_of(prefix, n, prefix.len());
    assert(name@ =~= prefix@.skip(n as int));
    let hidden: bool = name.len() > 0 && name[0] == '.';
    assert(hidden == shows_hidden(prefix@));
    let filter: Vec<char> = lower_of(name.as_slice());
    let mut out: Vec<Vec<char>> = Vec::new();
    let mut i: usize = 0;
    assert(texts(out@) =~= file_labels(prefix@, entries@, 0));
    while i < entries.len()
        invariant
            i <= entries@.len(),
            n == dir_part(prefix@),
            dir@ == prefix@.take(n as int),
            hidden == shows_hidden(prefix@),
            filter@ == lowered(prefix@.skip(n as int)),
            texts(out@) == file_labels(prefix@, entries@, i as nat),
        decreases entries@.len() - i,
    {
        let fname: Vec<char> = chars_of(entries[i].name.as_str());
        let low: Vec<char> = lower_of(fname.as_slice());
        let secret: bool = fname.len() > 0 && fname[0] == '.';
        let ghost before = texts(out@);
        if (hidden || !secret) && matches_at(low.as_slice(), filter.as_slice(), 0) {
            let mut label: Vec<char> = Vec::new();
            label.extend_from_slice(dir.as_slice());
            label.extend_from_slice(fname.as_slice());
            if entries[i].is_dir {
                label.push('/');
            }
            assert(label@ =~= file_label(prefix@, fname@, entries@[i as int].is_dir));
            let ghost lv = label@;
            out.push(label);
            assert(texts(out@) =~= before.push(lv));
        }
        i += 1;
    }
    out
}

/// What an optional completion holds.
pub open spec fn completion_option(c: Option<Completion>) -> Option<CompletionView> {
    match c {
        Some(x) => Some(x@),
        None => None,
    }
}

/// A buffer and the listing of the directory that its mention names have this
/// completion: every candidate that fits, in order, or none if nothing does.
pub open spec fn completes(
    buffer: Seq<char>,
    entries: Seq<DirEntry>,
    r: Option<CompletionView>,
) -> bool {
    match trigger(buffer) {
        None => r is None,
        Some((kind, i)) => {
            let prefix = buffer.skip(i + 1);
            let found = if kind == MenuKind::Slash {
                slash_matches(prefix, palette_entries().len())
            } else {
                file_labels(prefix, entries, entries.len())
            };
            match r {
                None => found.len() == 0,
                Some(c) => found.len() > 0 && c.kind == kind && c.replace_start == byte_len(
                    buffer.take(i),
                ) && texts_sorted(c.candidates) && c.candidates.to_multiset()
                    == found.to_multiset(),
            }
        },
    }
}

/// The completion for `buffer` with the caret at its end, or none if no menu
/// should be open. `entries` is the listing of [`listing_dir`], which only a
/// mention looks at.
pub fn complete(buffer: &str, entries: &[DirEntry]) -> (r: Option<Completion>)
    ensures
        completes(buffer@, entries@, completion_option(r)),
{
    let b: Vec<char> = chars_of(buffer);
    let (kind, i) = match last_trigger(b.as_slice()) {
        Some(t) => t,
        None => {
            return None;
        },
    };
    let prefix: Vec<char> = slice_of(b.as_slice(), i + 1, b.len());
    assert(prefix@ =~= buffer@.skip(i + 1));
    let found: Vec<Vec<char>> = match kind {
        MenuKind::Slash => slash_candidates(prefix.as_slice()),
        MenuKind::File => file_candidates(prefix.as_slice(), entries),
    };
    if found.len() == 0 {
        return None;
    }
    let replace_start: usize = byte_offset(buffer, b.as_slice(), i);
    let sorted: Vec<Vec<char>> = sort_texts(found);
    Some(Completion { kind, replace_start, candidates: strings_of(&sorted) })
}

/// The buffer with candidate `index` in place of what the completion replaces: a
/// file keeps its `@`, a command brings its slash. Nothing where there is no
/// such candidate or the completion is not one of this buffer.
pub open spec fn applied(buffer: Seq<char>, c: CompletionView, index: int) -> Option<Seq<char>> {
    if 0 <= index < c.candidates.len() && char_at(buffer, c.replace_start as int) is Some {
        Some(
            buffer.take(char_at(buffer, c.replace_start as int)->0) + (if c.kind == MenuKind::File {
                seq!['@']
            } else {
                Seq::empty()
            }) + c.candidates[index],
        )
    } else {
        None
    }
}

/// The buffer with candidate `index` in place of what the completion replaces.
pub fn apply(buffer: &str, completion: &Completion, index: usize) -> (r: Option<String>)
    ensures
        text_option(r) == applied(buffer@, completion@, index as int),
{
    if index >= completion.candidates.len() {
        return None;
    }
    let b: Vec<char> = chars_of(buffer);
    match char_index(buffer, b.as_slice(), completion.replace_start) {
        None => None,
        Some(j) => {
            proof {
                lemma_char_at(buffer@, j as int, completion.replace_start as int);
            }
            let mut out: Vec<char> = slice_of(b.as_slice(), 0, j);
            assert(out@ =~= buffer@.take(j as int));
            match completion.kind {
                MenuKind::File => out.push('@'),
                MenuKind::Slash => {},
            }
            push_text(&mut out, completion.candidates[index].as_str());
            assert(completion@.candidates[index as int] == completion.candidates@[index as int]@);
            assert(out@ =~= applied(buffer@, completion@, index as int)->0);
            Some(text_of(out.as_slice()))
        },
    }
}

/// At most one mention can be open: a later one would put white space behind the
/// earlier.
pub proof fn one_mention_at_most(b: Seq<char>, i: int, j: int)
    requires
        mention_at(b, i),
        mention_at(b, j),
    ensures
        i == j,
{
    if i < j {
        assert(white(b[j - 1]));
    } else if j < i {
        assert(white(b[i - 1]));
    }
}

/// Applying a completion keeps the text before the trigger and ends in the
/// candidate.
pub proof fn applying_keeps_what_came_before(buffer: Seq<char>, c: CompletionView, index: int)
    requires
        applied(buffer, c, index) is Some,
    ensures
        ({
            let out = applied(buffer, c, index)->0;
            let j = char_at(buffer, c.replace_start as int)->0;
            &&& out.take(j) == buffer.take(j)
            &&& out.skip(out.len() - c.candidates[index].len()) == c.candidates[index]
        }),
{
    let out = applied(buffer, c, index)->0;
    let j = char_at(buffer, c.replace_start as int)->0;
    let k = choose|k: int| at_byte(buffer, k, c.replace_start as int);
    assert(at_byte(buffer, k, c.replace_start as int));
    assert(out.take(j) =~= buffer.take(j));
    assert(out.skip(out.len() - c.candidates[index].len()) =~= c.candidates[index]);
}

} // verus!
