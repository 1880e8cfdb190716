//! What the composer's text means and how it is edited: quit words, slash
//! commands, prompt history, staged submissions, and small texts about them.
use crate::complete::{palette_entries, Completion, CompletionView};
use crate::text::{
    chars_of,
    is_same_but_case,
    is_white,
    lines,
    lines_of,
    matches_at,
    same,
    same_but_case,
    same_strings,
    slice_of,
    stands_at,
    strings,
    text_of,
    text_option,
    texts,
    trim,
    trim_end,
    trim_end_of,
    trim_of,
    white,
};
use crate::view::{AgentMode, ViewModel, ViewState};
use vstd::prelude::*;
use vstd::string::*;

verus! {

// ---- texts ------------------------------------------------------------------
/// A text cut to `n` characters, three dots behind what was cut.
pub open spec fn truncated(s: Seq<char>, n: nat) -> Seq<char> {
    if s.len() <= n {
        s
    } else {
        s.take(n as int) + "..."@
    }
}

/// A text cut to `n` characters, three dots behind what was cut.
pub fn truncate(s: &str, n: usize) -> (r: String)
    ensures
        r@ == truncated(s@, n as nat),
{
    let c: Vec<char> = chars_of(s);
    if c.len() <= n {
        return s.to_owned();
    }
    let head: Vec<char> = slice_of(c.as_slice(), 0, n);
    assert(head@ =~= s@.take(n as int));
    text_of(head.as_slice()).concat("...")
}

/// What is behind a prefix.
pub open spec fn behind(s: Seq<char>, prefix: Seq<char>) -> Option<Seq<char>> {
    if stands_at(s, prefix, 0) {
        Some(s.skip(prefix.len() as int))
    } else {
        None
    }
}

/// What is behind a prefix.
pub fn behind_of(s: &[char], prefix: &str) -> (r: Option<Vec<char>>)
    ensures
        match r {
            Some(v) => behind(s@, prefix@) == Some(v@),
            None => behind(s@, prefix@) is None,
        },
{
    let p: Vec<char> = chars_of(prefix);
    if matches_at(s, p.as_slice(), 0) {
        let v: Vec<char> = slice_of(s, p.len(), s.len());
        assert(v@ =~= s@.skip(p@.len() as int));
        Some(v)
    } else {
        None
    }
}

/// The word leaves the session, shell-style.
pub open spec fn quits(text: Seq<char>) -> bool {
    trim(text) == "exit"@ || trim(text) == "quit"@
}

/// Whether the text is a bare `exit` or `quit`.
pub fn is_quit_word(text: &str) -> (r: bool)
    ensures
        r == quits(text@),
{
    let c: Vec<char> = chars_of(text);
    let t: String = text_of(trim_of(c.as_slice()).as_slice());
    same(t.as_str(), "exit") || same(t.as_str(), "quit")
}

// ---- slash commands ---------------------------------------------------------
/// What a slash command asks for.
#[derive(Debug, PartialEq, Eq)]
pub enum SlashAction {
    Help,
    /// Open the menu.
    Menu,
    Clear,
    Compact,
    ShowGoal,
    SetGoal(String),
    ClearGoal,
    Loop(Option<String>),
    CycleMode,
    Rewind { steps: usize },
    Cost,
    Context,
    Status,
    Model,
    Permissions,
    /// Toggle mouse capture so that the terminal can select text.
    SelectMode,
    Quit,
    Export,
    Doctor,
    History,
    Resume,
    Login,
    Memory,
    TerminalSetup,
    /// Submit an instruction to the model.
    Prompt(String),
}

/// What such a request holds.
#[verifier::ext_equal]
pub enum SlashView {
    Help,
    Menu,
    Clear,
    Compact,
    ShowGoal,
    SetGoal(Seq<char>),
    ClearGoal,
    Loop(Option<Seq<char>>),
    CycleMode,
    Rewind { steps: nat },
    Cost,
    Context,
    Status,
    Model,
    Permissions,
    SelectMode,
    Quit,
    Export,
    Doctor,
    History,
    Resume,
    Login,
    Memory,
    TerminalSetup,
    Prompt(Seq<char>),
}

impl View for SlashAction {
    type V = SlashView;

    open spec fn view(&self) -> SlashView {
        match self {
            SlashAction::Help => SlashView::Help,
            SlashAction::Menu => SlashView::Menu,
            SlashAction::Clear => SlashView::Clear,
            SlashAction::Compact => SlashView::Compact,
            SlashAction::ShowGoal => SlashView::ShowGoal,
            SlashAction::SetGoal(g) => SlashView::SetGoal(g@),
            SlashAction::ClearGoal => SlashView::ClearGoal,
            SlashAction::Loop(d) => SlashView::Loop(text_option(*d)),
            SlashAction::CycleMode => SlashView::CycleMode,
            SlashAction::Rewind { steps } => SlashView::Rewind { steps: *steps as nat },
            SlashAction::Cost => SlashView::Cost,
            SlashAction::Context => SlashView::Context,
            SlashAction::Status => SlashView::Status,
            SlashAction::Model => SlashView::Model,
            SlashAction::Permissions => SlashView::Permissions,
            SlashAction::SelectMode => SlashView::SelectMode,
            SlashAction::Quit => SlashView::Quit,
            SlashAction::Export => SlashView::Export,
            SlashAction::Doctor => SlashView::Doctor,
            SlashAction::History => SlashView::History,
            SlashAction::Resume => SlashView::Resume,
            SlashAction::Login => SlashView::Login,
            SlashAction::Memory => SlashView::Memory,
            SlashAction::TerminalSetup => SlashView::TerminalSetup,
            SlashAction::Prompt(t) => SlashView::Prompt(t@),
        }
    }
}

/// What an optional request holds.
pub open spec fn slash_option(a: Option<SlashAction>) -> Option<SlashView> {
    match a {
        Some(x) => Some(x@),
        None => None,
    }
}

/// The value of some decimal digits.
pub open spec fn digits_value(s: Seq<char>) -> Option<nat>
    decreases s.len(),
{
    if s.len() == 0 {
        Some(0)
    } else {
        let d = s.last();
        match digits_value(s.drop_last()) {
            Some(n) => if '0' <= d && d <= '9' {
                Some(n * 10 + (d as u32 - '0' as u32) as nat)
            } else {
                None
            },
            None => None,
        }
    }
}

/// The number that a text writes in decimal, a plus sign allowed in front.
pub open spec fn number_in(s: Seq<char>) -> Option<nat> {
    let digits = if s.len() > 1 && s[0] == '+' {
        s.skip(1)
    } else {
        s
    };
    if digits.len() == 0 {
        None
    } else {
        match digits_value(digits) {
            Some(n) => if n <= usize::MAX {
                Some(n)
            } else {
                None
            },
            None => None,
        }
    }
}

/// More digits make no smaller number.
proof fn lemma_digits_grow(s: Seq<char>, i: int)
    requires
        0 <= i <= s.len(),
        digits_value(s) is Some,
    ensures
        digits_value(s.take(i)) is Some,
        digits_value(s.take(i))->0 <= digits_value(s)->0,
    decreases s.len() - i,
{
    if i == s.len() {
        assert(s.take(i) =~= s);
    } else {
        lemma_digits_grow(s, i + 1);
        assert(s.take(i + 1).drop_last() =~= s.take(i));
    }
}

/// The number that a text writes in decimal.
pub fn parse_number(s: &[char]) -> (r: Option<usize>)
    ensures
        match r {
            Some(n) => number_in(s@) == Some(n as nat),
            None => number_in(s@) is None,
        },
{
    let from: usize = if s.len() > 1 && s[0] == '+' {
        1
    } else {
        0
    };
    if s.len() == 0 {
        return None;
    }
    let ghost digits = if s@.len() > 1 && s@[0] == '+' {
        s@.skip(1)
    } else {
        s@
    };
    let mut n: usize = 0;
    let mut i: usize = from;
    assert(digits.take(0) =~= Seq::<char>::empty());
    while i < s.len()
        invariant
            from <= i <= s@.len(),
            digits.len() == s@.len() - from,
            forall|k: int| 0 <= k < digits.len() ==> #[trigger] digits[k] == s@[k + from],
            digits_value(digits.take(i - from)) == Some(n as nat),
            number_in(s@) is Some ==> digits_value(digits) is Some && digits_value(digits)->0
                <= usize::MAX,
        decreases s@.len() - i,
    {
        let c: char = s[i];
        let ghost k = i - from;
        assert(digits.take(k + 1).drop_last() =~= digits.take(k));
        assert(digits.take(k + 1).last() == c);
        proof {
            if digits_value(digits) is Some {
                lemma_digits_grow(digits, k + 1);
            }
        }
        if c < '0' || c > '9' {
            return None;
        }
        let d: usize = c as usize - '0' as usize;
        if n > (usize::MAX - d) / 10 {
            proof {
                if number_in(s@) is Some {
                    assert(digits_value(digits.take(k + 1)) == Some((n * 10 + d) as nat));
                    assert(n * 10 + d <= usize::MAX);
                }
            }
            return None;
        }
        n = n * 10 + d;
        i += 1;
    }
    assert(digits.take(i - from) =~= digits);
    Some(n)
}

/// The instruction that a command stands for, if it is one of those.
pub open spec fn canned(t: Seq<char>) -> Option<Seq<char>> {
    if t == "/review"@ {
        Some(
            "Review the pending code changes on the current branch. Summarize the diff, flag risks and bugs, and suggest concrete fixes."@,
        )
    } else if t == "/pr"@ {
        Some(
            "Create a pull request for the current branch: summarize the changes and generate a title and body."@,
        )
    } else if t == "/init"@ {
        Some(
            "Initialize an AGENTS.md file documenting this codebase: structure, build/test commands, and conventions."@,
        )
    } else if t == "/diff"@ {
        Some("Show the diff of pending changes using git."@)
    } else if t == "/release-notes"@ {
        Some("Generate release notes from the recent git history."@)
    } else if t == "/bug"@ {
        Some(
            "Help me report a bug: summarize the current problem and any recent errors from this session."@,
        )
    } else if t == "/doc"@ {
        Some("Generate documentation for the relevant code."@)
    } else if t == "/docs"@ {
        Some("Read and summarize the relevant documentation."@)
    } else if t == "/fix"@ {
        Some("Find and fix bugs in the relevant code."@)
    } else if t == "/explain"@ {
        Some("Explain the relevant code."@)
    } else if t == "/edit"@ {
        Some("Apply the requested edits to the code."@)
    } else if t == "/codebase"@ {
        Some("Summarize the structure of this codebase for context."@)
    } else {
        None
    }
}

/// The command without arguments that a word names, aliases included.
pub open spec fn command(t: Seq<char>) -> Option<SlashView> {
    if t == "/clear"@ || t == "/c"@ || t == "/new"@ {
        Some(SlashView::Clear)
    } else if t == "/menu"@ || t == "/m"@ {
        Some(SlashView::Menu)
    } else if t == "/compact"@ || t == "/cc"@ {
        Some(SlashView::Compact)
    } else if t == "/context"@ {
        Some(SlashView::Context)
    } else if t == "/cost"@ || t == "/usage"@ {
        Some(SlashView::Cost)
    } else if t == "/status"@ || t == "/s"@ {
        Some(SlashView::Status)
    } else if t == "/model"@ {
        Some(SlashView::Model)
    } else if t == "/mode"@ {
        Some(SlashView::CycleMode)
    } else if t == "/permissions"@ || t == "/approval"@ {
        Some(SlashView::Permissions)
    } else if t == "/select"@ || t == "/mouse"@ {
        Some(SlashView::SelectMode)
    } else if t == "/doctor"@ {
        Some(SlashView::Doctor)
    } else if t == "/history"@ {
        Some(SlashView::History)
    } else if t == "/export"@ {
        Some(SlashView::Export)
    } else if t == "/quit"@ || t == "/exit"@ || t == "/q"@ {
        Some(SlashView::Quit)
    } else if t == "/resume"@ {
        Some(SlashView::Resume)
    } else if t == "/login"@ {
        Some(SlashView::Login)
    } else if t == "/memory"@ {
        Some(SlashView::Memory)
    } else if t == "/terminal-setup"@ {
        Some(SlashView::TerminalSetup)
    } else if t == "/help"@ || t == "/h"@ || t == "/?"@ {
        Some(SlashView::Help)
    } else {
        match canned(t) {
            Some(i) => Some(SlashView::Prompt(i)),
            None => None,
        }
    }
}

/// What a text asks for as a slash command; nothing where it is none.
pub open spec fn slash(text: Seq<char>) -> Option<SlashView> {
    let t = trim(text);
    if t == "/goal"@ {
        Some(SlashView::ShowGoal)
    } else if behind(t, "/goal "@) is Some {
        let goal = trim(behind(t, "/goal "@)->0);
        Some(
            if goal.len() == 0 {
                SlashView::ShowGoal
            } else if same_but_case(goal, "clear"@) {
                SlashView::ClearGoal
            } else {
                SlashView::SetGoal(goal)
            },
        )
    } else if t == "/loop"@ {
        Some(SlashView::Loop(None))
    } else if behind(t, "/loop "@) is Some {
        let direction = trim(behind(t, "/loop "@)->0);
        Some(
            SlashView::Loop(
                if direction.len() == 0 {
                    None
                } else {
                    Some(direction)
                },
            ),
        )
    } else if behind(t, "/rewind"@) is Some {
        let rest = trim(behind(t, "/rewind"@)->0);
        if rest.len() == 0 {
            Some(SlashView::Rewind { steps: 1 })
        } else {
            match number_in(rest) {
                Some(n) => if n > 0 {
                    Some(SlashView::Rewind { steps: n })
                } else {
                    None
                },
                None => None,
            }
        }
    } else {
        command(t)
    }
}

fn canned_of(t: &str) -> (r: Option<&'static str>)
    ensures
        match r {
            Some(i) => canned(t@) == Some(i@),
            None => canned(t@) is None,
        },
{
    if same(t, "/review") {
        Some(
            "Review the pending code changes on the current branch. Summarize the diff, flag risks and bugs, and suggest concrete fixes.",
        )
    } else if same(t, "/pr") {
        Some(
            "Create a pull request for the current branch: summarize the changes and generate a title and body.",
        )
    } else if same(t, "/init") {
        Some(
            "Initialize an AGENTS.md file documenting this codebase: structure, build/test commands, and conventions.",
        )
    } else if same(t, "/diff") {
        Some("Show the diff of pending changes using git.")
    } else if same(t, "/release-notes") {
        Some("Generate release notes from the recent git history.")
    } else if same(t, "/bug") {
        Some(
            "Help me report a bug: summarize the current problem and any recent errors from this session.",
        )
    } else if same(t, "/doc") {
        Some("Generate documentation for the relevant code.")
    } else if same(t, "/docs") {
        Some("Read and summarize the relevant documentation.")
    } else if same(t, "/fix") {
        Some("Find and fix bugs in the relevant code.")
    } else if same(t, "/explain") {
        Some("Explain the relevant code.")
    } else if same(t, "/edit") {
        Some("Apply the requested edits to the code.")
    } else if same(t, "/codebase") {
        Some("Summarize the structure of this codebase for context.")
    } else {
        None
    }
}

fn command_of(t: &str) -> (r: Option<SlashAction>)
    ensures
        slash_option(r) == command(t@),
{
    if same(t, "/clear") || same(t, "/c") || same(t, "/new") {
        Some(SlashAction::Clear)
    } else if same(t, "/menu") || same(t, "/m") {
        Some(SlashAction::Menu)
    } else if same(t, "/compact") || same(t, "/cc") {
        Some(SlashAction::Compact)
    } else if same(t, "/context") {
        Some(SlashAction::Context)
    } else if same(t, "/cost") || same(t, "/usage") {
        Some(SlashAction::Cost)
    } else if same(t, "/status") || same(t, "/s") {
        Some(SlashAction::Status)
    } else if same(t, "/model") {
        Some(SlashAction::Model)
    } else if same(t, "/mode") {
        Some(SlashAction::CycleMode)
    } else if same(t, "/permissions") || same(t, "/approval") {
        Some(SlashAction::Permissions)
    } else if same(t, "/select") || same(t, "/mouse") {
        Some(SlashAction::SelectMode)
    } else if same(t, "/doctor") {
        Some(SlashAction::Doctor)
    } else if same(t, "/history") {
        Some(SlashAction::History)
    } else if same(t, "/export") {
        Some(SlashAction::Export)
    } else if same(t, "/quit") || same(t, "/exit") || same(t, "/q") {
        Some(SlashAction::Quit)
    } else if same(t, "/resume") {
        Some(SlashAction::Resume)
    } else if same(t, "/login") {
        Some(SlashAction::Login)
    } else if same(t, "/memory") {
        Some(SlashAction::Memory)
    } else if same(t, "/terminal-setup") {
        Some(SlashAction::TerminalSetup)
    } else if same(t, "/help") || same(t, "/h") || same(t, "/?") {
        Some(SlashAction::Help)
    } else {
        match canned_of(t) {
            Some(i) => Some(SlashAction::Prompt(i.to_owned())),
            None => None,
        }
    }
}

/// Read a text as a slash command: the one table that every command goes
/// through.
pub fn classify_slash(text: &str) -> (r: Option<SlashAction>)
    ensures
        slash_option(r) == slash(text@),
{
    let c: Vec<char> = chars_of(text);
    let t: Vec<char> = trim_of(c.as_slice());
    let ts: String = text_of(t.as_slice());
    if same(ts.as_str(), "/goal") {
        return Some(SlashAction::ShowGoal);
    }
    match behind_of(t.as_slice(), "/goal ") {
        Some(rest) => {
            let goal: Vec<char> = trim_of(rest.as_slice());
            if goal.len() == 0 {
                return Some(SlashAction::ShowGoal);
            }
            let word: Vec<char> = chars_of("clear");
            if is_same_but_case(goal.as_slice(), word.as_slice()) {
                return Some(SlashAction::ClearGoal);
            }
            return Some(SlashAction::SetGoal(text_of(goal.as_slice())));
        },
        None => {},
    }
    if same(ts.as_str(), "/loop") {
        return Some(SlashAction::Loop(None));
    }
    match behind_of(t.as_slice(), "/loop ") {
        Some(rest) => {
            let direction: Vec<char> = trim_of(rest.as_slice());
            if direction.len() == 0 {
                return Some(SlashAction::Loop(None));
            }
            return Some(SlashAction::Loop(Some(text_of(direction.as_slice()))));
        },
        None => {},
    }
    match behind_of(t.as_slice(), "/rewind") {
        Some(rest) => {
            let rest: Vec<char> = trim_of(rest.as_slice());
            if rest.len() == 0 {
                return Some(SlashAction::Rewind { steps: 1 });
            }
            return match parse_number(rest.as_slice()) {
                Some(n) => if n > 0 {
                    Some(SlashAction::Rewind { steps: n })
                } else {
                    None
                },
                None => None,
            };
        },
        None => {},
    }
    command_of(ts.as_str())
}

/// A text that differs from another at a position does not start with it.
proof fn lemma_differs(s: Seq<char>, p: Seq<char>, j: int)
    requires
        0 <= j < p.len(),
        j < s.len(),
        s[j] != p[j],
    ensures
        !stands_at(s, p, 0),
{
    if stands_at(s, p, 0) {
        assert(s.subrange(0, p.len() as int)[j] == p[j]);
    }
}

/// A text without white at its ends stays as it is when trimmed.
proof fn lemma_trim_tight(s: Seq<char>)
    requires
        s.len() > 0,
        !white(s[0]),
        !white(s.last()),
    ensures
        trim(s) == s,
{
}

/// A word that is tight and names a command is dispatched.
proof fn lemma_plain_command(s: Seq<char>)
    requires
        s.len() > 0,
        !white(s[0]),
        !white(s.last()),
        !stands_at(s, "/rewind"@, 0) || s == "/rewind"@,
        command(s) is Some || s == "/goal"@ || s == "/loop"@ || s == "/rewind"@,
    ensures
        slash(s) is Some,
{
    lemma_trim_tight(s);
    if s == "/rewind"@ {
        let rest = s.skip("/rewind"@.len() as int);
        assert(rest =~= Seq::<char>::empty());
        assert(trim(rest) =~= Seq::<char>::empty());
        assert(s.subrange(0, s.len() as int) =~= s);
        assert(behind(s, "/rewind"@) == Some(rest));
    }
}

/// Every command that the palette advertises has an action.
pub proof fn every_advertised_command_is_dispatched(i: int)
    requires
        0 <= i < palette_entries().len(),
    ensures
        slash(palette_entries()[i].0@) is Some,
{
    let s = palette_entries()[i].0@;
    reveal_strlit("/rewind");
    if i == 0 {
        reveal_strlit("/clear");
    } else if i == 1 {
        reveal_strlit("/compact");
        lemma_differs(s, "/rewind"@, 1);
    } else if i == 2 {
        reveal_strlit("/context");
        lemma_differs(s, "/rewind"@, 1);
    } else if i == 3 {
        reveal_strlit("/goal");
    } else if i == 4 {
        reveal_strlit("/loop");
    } else if i == 5 {
        reveal_strlit("/rewind");
    } else if i == 6 {
        reveal_strlit("/cost");
    } else if i == 7 {
        reveal_strlit("/usage");
    } else if i == 8 {
        reveal_strlit("/menu");
    } else if i == 9 {
        reveal_strlit("/status");
        lemma_differs(s, "/rewind"@, 1);
    } else if i == 10 {
        reveal_strlit("/model");
    } else if i == 11 {
        reveal_strlit("/mode");
    } else if i == 12 {
        reveal_strlit("/permissions");
        lemma_differs(s, "/rewind"@, 1);
    } else if i == 13 {
        reveal_strlit("/select");
        lemma_differs(s, "/rewind"@, 1);
    } else if i == 14 {
        reveal_strlit("/doctor");
        lemma_differs(s, "/rewind"@, 1);
    } else if i == 15 {
        reveal_strlit("/history");
        lemma_differs(s, "/rewind"@, 1);
    } else if i == 16 {
        reveal_strlit("/export");
        lemma_differs(s, "/rewind"@, 1);
    } else if i == 17 {
        reveal_strlit("/quit");
    } else if i == 18 {
        reveal_strlit("/resume");
        lemma_differs(s, "/rewind"@, 3);
    } else if i == 19 {
        reveal_strlit("/login");
    } else if i == 20 {
        reveal_strlit("/memory");
        lemma_differs(s, "/rewind"@, 1);
    } else if i == 21 {
        reveal_strlit("/terminal-setup");
        lemma_differs(s, "/rewind"@, 1);
    } else if i == 22 {
        reveal_strlit("/approval");
        lemma_differs(s, "/rewind"@, 1);
    } else if i == 23 {
        reveal_strlit("/review");
        lemma_differs(s, "/rewind"@, 3);
    } else if i == 24 {
        reveal_strlit("/pr");
    } else if i == 25 {
        reveal_strlit("/init");
    } else if i == 26 {
        reveal_strlit("/diff");
    } else if i == 27 {
        reveal_strlit("/release-notes");
        lemma_differs(s, "/rewind"@, 3);
    } else if i == 28 {
        reveal_strlit("/bug");
    } else if i == 29 {
        reveal_strlit("/doc");
    } else if i == 30 {
        reveal_strlit("/docs");
    } else if i == 31 {
        reveal_strlit("/fix");
    } else if i == 32 {
        reveal_strlit("/explain");
        lemma_differs(s, "/rewind"@, 1);
    } else if i == 33 {
        reveal_strlit("/edit");
    } else if i == 34 {
        reveal_strlit("/codebase");
        lemma_differs(s, "/rewind"@, 1);
    } else if i == 35 {
        reveal_strlit("/help");
    }
    lemma_plain_command(s);
}

/// The prompt of `/loop`.
pub open spec fn loop_text(direction: Option<Seq<char>>) -> Seq<char> {
    let base =
        "Continue working autonomously toward the active session goal. Inspect the current state, take the next useful actions, verify the result, and do not stop at a progress update while safe in-scope work remains."@;
    match direction {
        Some(d) => base + " Additional direction: "@ + d,
        None => base,
    }
}

/// The prompt of `/loop`.
pub fn loop_prompt(direction: Option<&str>) -> (r: String)
    ensures
        direction matches Some(d) ==> r@ == loop_text(Some(d@)),
        direction is None ==> r@ == loop_text(None),
{
    let prompt: String =
        "Continue working autonomously toward the active session goal. Inspect the current state, take the next useful actions, verify the result, and do not stop at a progress update while safe in-scope work remains.".to_owned();
    match direction {
        Some(d) => prompt.concat(" Additional direction: ").concat(d),
        None => prompt,
    }
}

// ---- completion and modes ---------------------------------------------------
/// The completions show the same menu: of one kind, with the same candidates.
pub open spec fn alike(a: CompletionView, b: CompletionView) -> bool {
    a.kind == b.kind && a.candidates == b.candidates
}

/// Whether two completions show the same menu.
pub fn same_menu(a: &Completion, b: &Completion) -> (r: bool)
    ensures
        r == alike(a@, b@),
{
    a.kind == b.kind && same_strings(a.candidates.as_slice(), b.candidates.as_slice())
}

/// The next mode, from the most cautious to the most permissive and round.
pub open spec fn next_mode(m: AgentMode) -> AgentMode {
    match m {
        AgentMode::Ask => AgentMode::Default,
        AgentMode::Default => AgentMode::AcceptEdits,
        AgentMode::AcceptEdits => AgentMode::Plan,
        AgentMode::Plan => AgentMode::Auto,
        AgentMode::Auto => AgentMode::Ask,
    }
}

/// The next mode.
pub fn cycle_mode(m: AgentMode) -> (r: AgentMode)
    ensures
        r == next_mode(m),
{
    match m {
        AgentMode::Ask => AgentMode::Default,
        AgentMode::Default => AgentMode::AcceptEdits,
        AgentMode::AcceptEdits => AgentMode::Plan,
        AgentMode::Plan => AgentMode::Auto,
        AgentMode::Auto => AgentMode::Ask,
    }
}

/// Five steps are a full round, and no fewer.
pub proof fn five_steps_are_a_round(m: AgentMode)
    ensures
        next_mode(next_mode(next_mode(next_mode(next_mode(m))))) == m,
        next_mode(m) != m,
        next_mode(next_mode(m)) != m,
        next_mode(next_mode(next_mode(m))) != m,
        next_mode(next_mode(next_mode(next_mode(m)))) != m,
{
}

// ---- staged submissions -----------------------------------------------------
/// A prompt held back a moment in case it is the first line of a paste.
#[derive(Debug, PartialEq, Eq)]
pub struct PendingSubmit {
    pub text: String,
    pub staged: u64,
}

/// What a held prompt holds.
pub open spec fn staged_view(p: Option<PendingSubmit>) -> Option<(Seq<char>, u64)> {
    match p {
        Some(s) => Some((s.text@, s.staged)),
        None => None,
    }
}

/// How long a prompt is held, in nanoseconds.
pub const PASTE_RESCUE_WINDOW: u64 = 20_000_000;

/// Input that may belong to the same paste came while the prompt was held.
pub open spec fn goes_on(staged: u64, now: u64, continuation: bool) -> bool {
    continuation && crate::view::since(Some(staged), now) <= PASTE_RESCUE_WINDOW
}

/// Fold a held prompt back into the composer where the next input shows that it
/// was the first line of a paste; else hand it out to be dispatched.
pub fn resolve_staged_submit(
    pending: &mut Option<PendingSubmit>,
    composer: &mut String,
    now: u64,
    continuation: bool,
) -> (r: Option<String>)
    ensures
        *final(pending) is None,
        match staged_view(*old(pending)) {
            None => r is None && final(composer)@ == old(composer)@,
            Some((text, staged)) => if goes_on(staged, now, continuation) {
                r is None && final(composer)@ == text.push('\n') + old(composer)@
            } else {
                text_option(r) == Some(text) && final(composer)@ == old(composer)@
            },
        },
{
    match pending.take() {
        None => None,
        Some(s) => {
            if continuation && now.saturating_sub(s.staged) <= PASTE_RESCUE_WINDOW {
                let mut text: String = s.text;
                text.push('\n');
                let whole: String = text.concat(composer.as_str());
                *composer = whole;
                None
            } else {
                Some(s.text)
            }
        },
    }
}

// ---- the escape key ---------------------------------------------------------
/// What the escape key does.
#[derive(Debug, Clone, Copy, PartialEq, Eq, Structural)]
pub enum EscAction {
    QueueAfterTool,
    Cancel,
    RestoreDraft,
    Clear,
    Quit,
}

impl ViewModel {
    /// What the escape key does: a running turn is stopped, or handed over to a
    /// queued prompt; else a draft is restored or cleared; with none of these
    /// left the session ends.
    pub open spec fn escape(self) -> EscAction {
        if self.busy && self.queued_messages > 0 && !self.queued_after_tool {
            EscAction::QueueAfterTool
        } else if self.busy {
            EscAction::Cancel
        } else if self.history_pos is Some {
            EscAction::RestoreDraft
        } else if self.composer.len() > 0 {
            EscAction::Clear
        } else {
            EscAction::Quit
        }
    }
}

/// What the escape key does in a state.
pub fn esc_action(state: &ViewState) -> (r: EscAction)
    ensures
        r == state@.escape(),
{
    if state.busy && state.queued_messages > 0 && !state.queued_after_tool {
        EscAction::QueueAfterTool
    } else if state.busy {
        EscAction::Cancel
    } else if state.history_pos.is_some() {
        EscAction::RestoreDraft
    } else if !state.composer.as_str().is_empty() {
        EscAction::Clear
    } else {
        EscAction::Quit
    }
}

/// The escape key never ends the session while there is a draft, a prompt from
/// the history, or a running turn.
pub proof fn escape_never_loses_a_draft(m: ViewModel)
    ensures
        m.escape() == EscAction::Quit <==> !m.busy && m.history_pos is None && m.composer.len()
            == 0,
        m.busy ==> m.escape() == EscAction::Cancel || m.escape() == EscAction::QueueAfterTool,
{
}

// ---- editing ----------------------------------------------------------------
/// The position of the last white character before `n`.
pub open spec fn last_white_before(s: Seq<char>, n: int) -> Option<int>
    decreases n,
{
    if n <= 0 {
        None
    } else if white(s[n - 1]) {
        Some(n - 1)
    } else {
        last_white_before(s, n - 1)
    }
}

/// A text without its last word: up to the white before it, or nothing.
pub open spec fn without_last_word(s: Seq<char>) -> Seq<char> {
    let t = trim_end(s);
    match last_white_before(t, t.len() as int) {
        Some(i) => t.take(i),
        None => Seq::empty(),
    }
}

/// Delete the last word from the end of a text.
pub fn delete_last_word(s: &mut String)
    ensures
        final(s)@ == without_last_word(old(s)@),
{
    let c: Vec<char> = chars_of(s.as_str());
    let t: Vec<char> = trim_end_of(c.as_slice());
    let mut n: usize = t.len();
    while n > 0 && !is_white(t[n - 1])
        invariant
            n <= t@.len(),
            last_white_before(t@, t@.len() as int) == last_white_before(t@, n as int),
        decreases n,
    {
        n -= 1;
    }
    let cut: usize = if n > 0 {
        n - 1
    } else {
        0
    };
    let head: Vec<char> = slice_of(t.as_slice(), 0, cut);
    assert(head@ =~= without_last_word(s@));
    *s = text_of(head.as_slice());
}

// ---- prompt history ---------------------------------------------------------
/// The most prompts that are kept.
pub const MAX_HISTORY: usize = 2000;

/// The newest entries, as many as are kept.
pub open spec fn newest(h: Seq<Seq<char>>) -> Seq<Seq<char>> {
    if h.len() > MAX_HISTORY {
        h.skip(h.len() - MAX_HISTORY)
    } else {
        h
    }
}

/// An entry added, unless it is blank or the same as the one before it.
pub open spec fn noted(h: Seq<Seq<char>>, entry: Seq<char>) -> Seq<Seq<char>> {
    if trim(entry).len() == 0 || (h.len() > 0 && h.last() == entry) {
        h
    } else {
        h.push(entry)
    }
}

/// The history with an entry added.
pub open spec fn remembered(h: Seq<Seq<char>>, entry: Seq<char>) -> Seq<Seq<char>> {
    if noted(h, entry) == h {
        h
    } else {
        newest(noted(h, entry))
    }
}

/// Drop the oldest entries beyond those that are kept.
fn keep_newest(h: &mut Vec<String>)
    ensures
        strings(final(h)@) == newest(strings(old(h)@)),
{
    let ghost all = strings(h@);
    let n: usize = h.len();
    if n > MAX_HISTORY {
        let rest: Vec<String> = h.split_off(n - MAX_HISTORY);
        assert(strings(rest@) =~= all.skip(n - MAX_HISTORY));
        *h = rest;
    }
}

/// Whether a text is blank.
fn blank(s: &str) -> (r: bool)
    ensures
        r == (trim(s@).len() == 0),
{
    let c: Vec<char> = chars_of(s);
    trim_of(c.as_slice()).len() == 0
}

/// Add an entry to the history, unless it is blank or repeats the last.
pub fn push_history(history: &mut Vec<String>, entry: String)
    ensures
        strings(final(history)@) == remembered(strings(old(history)@), entry@),
{
    let ghost h = strings(history@);
    let ghost e = entry@;
    let n: usize = history.len();
    if blank(entry.as_str()) {
        return;
    }
    if n > 0 {
        assert(h.last() == history@[n - 1]@);
        if same(history[n - 1].as_str(), entry.as_str()) {
            return;
        }
    }
    history.push(entry);
    assert(strings(history@) =~= h.push(e));
    assert(h.push(e).len() != h.len());
    keep_newest(history);
}

/// The entries that the first `n` lines of a file leave.
pub open spec fn entries(ls: Seq<Seq<char>>, n: nat) -> Seq<Seq<char>>
    decreases n,
{
    if n == 0 {
        Seq::empty()
    } else {
        noted(entries(ls, (n - 1) as nat), ls[n - 1])
    }
}

/// The history that a file's contents hold, one prompt a line.
pub fn load_history(body: &str) -> (out: Vec<String>)
    ensures
        strings(out@) == newest(entries(lines(body@), lines(body@).len())),
{
    let chars: Vec<char> = chars_of(body);
    let ls: Vec<Vec<char>> = lines_of(chars.as_slice());
    let ghost all = lines(body@);
    assert(all.len() == ls@.len());
    let mut out: Vec<String> = Vec::new();
    let mut i: usize = 0;
    assert(strings(out@) =~= Seq::<Seq<char>>::empty());
    while i < ls.len()
        invariant
            i <= ls@.len(),
            texts(ls@) == all,
            strings(out@) == entries(all, i as nat),
        decreases ls@.len() - i,
    {
        let ghost before = strings(out@);
        assert(all[i as int] == ls@[i as int]@);
        let entry: String = text_of(ls[i].as_slice());
        let ghost e = entry@;
        let n: usize = out.len();
        let repeats: bool = n > 0 && same(out[n - 1].as_str(), entry.as_str());
        assert(n > 0 ==> before.last() == out@[n - 1]@);
        if !blank(entry.as_str()) && !repeats {
            out.push(entry);
            assert(strings(out@) =~= before.push(e));
        }
        i += 1;
    }
    keep_newest(&mut out);
    out
}

/// A history without blanks, without repeats next to each other, and no longer
/// than what is kept.
pub open spec fn tidy(h: Seq<Seq<char>>) -> bool {
    &&& h.len() <= MAX_HISTORY
    &&& forall|i: int| 0 <= i < h.len() ==> trim(#[trigger] h[i]).len() > 0
    &&& forall|i: int, j: int| 0 <= i && j == i + 1 && j < h.len() ==> #[trigger] h[i] != #[trigger] h[j]
}

/// Adding an entry keeps a history tidy.
pub proof fn adding_keeps_the_history_tidy(h: Seq<Seq<char>>, entry: Seq<char>)
    requires
        tidy(h),
    ensures
        tidy(remembered(h, entry)),
{
    if noted(h, entry) != h {
        let g = h.push(entry);
        let r = newest(g);
        let off = g.len() - r.len();
        assert forall|i: int| 0 <= i < r.len() implies trim(#[trigger] r[i]).len() > 0 by {
            assert(r[i] == g[i + off]);
            if i + off < h.len() {
                assert(trim(h[i + off]).len() > 0);
            }
        }
        assert forall|i: int, j: int| 0 <= i && j == i + 1 && j < r.len() implies #[trigger] r[i]
            != #[trigger] r[j] by {
            assert(r[i] == g[i + off]);
            assert(r[j] == g[j + off]);
            if j + off < h.len() {
                assert(h[i + off] != h[j + off]);
            } else {
                assert(h.last() == h[i + off]);
            }
        }
    }
}

/// What a file holds loads as a tidy history.
pub proof fn loaded_histories_are_tidy(ls: Seq<Seq<char>>, n: nat)
    requires
        n <= ls.len(),
    ensures
        tidy(newest(entries(ls, n))),
{
    lemma_entries(ls, n);
    let g = entries(ls, n);
    let r = newest(g);
    let off = g.len() - r.len();
    assert forall|i: int| 0 <= i < r.len() implies trim(#[trigger] r[i]).len() > 0 by {
        assert(r[i] == g[i + off]);
    }
    assert forall|i: int, j: int| 0 <= i && j == i + 1 && j < r.len() implies #[trigger] r[i]
        != #[trigger] r[j] by {
        assert(r[i] == g[i + off]);
        assert(r[j] == g[j + off]);
    }
}

proof fn lemma_entries(ls: Seq<Seq<char>>, n: nat)
    requires
        n <= ls.len(),
    ensures
        forall|i: int| 0 <= i < entries(ls, n).len() ==> trim(#[trigger] entries(ls, n)[i]).len() > 0,
        forall|i: int, j: int|
            0 <= i && j == i + 1 && j < entries(ls, n).len() ==> #[trigger] entries(ls, n)[i]
                != #[trigger] entries(ls, n)[j],
    decreases n,
{
    if n > 0 {
        lemma_entries(ls, (n - 1) as nat);
        let h = entries(ls, (n - 1) as nat);
        let g = entries(ls, n);
        assert(g == noted(h, ls[n - 1]));
        if g != h {
            assert forall|i: int, j: int| 0 <= i && j == i + 1 && j < g.len() implies #[trigger] g[i]
                != #[trigger] g[j] by {
                if j == h.len() {
                    assert(g[i] == h.last());
                } else {
                    assert(h[i] != h[j]);
                }
            }
        }
    }
}

/// Where browsing goes: from the draft to the newest entry, then entry by entry,
/// staying at the oldest, and from the newest back to the draft.
pub open spec fn browsed(
    h: Seq<Seq<char>>,
    pos: Option<usize>,
    draft: Seq<char>,
    older: bool,
) -> (Option<usize>, Seq<char>) {
    let len = h.len();
    if len == 0 {
        (pos, draft)
    } else {
        match pos {
            None => if older {
                (Some((len - 1) as usize), h[len - 1])
            } else {
                (None, draft)
            },
            Some(i) => if older {
                let j = if i == 0 {
                    0
                } else if i <= len {
                    i - 1
                } else {
                    len - 1
                };
                (Some(j as usize), h[j])
            } else if i + 1 >= len {
                (None, draft)
            } else {
                (Some((i + 1) as usize), h[i + 1])
            },
        }
    }
}

/// Step through the prompt history.
pub fn browse_history(history: &[String], pos: Option<usize>, draft: &str, older: bool) -> (r: (
    Option<usize>,
    String,
))
    ensures
        (r.0, r.1@) == browsed(strings(history@), pos, draft@, older),
{
    let len: usize = history.len();
    assert(strings(history@).len() == len);
    assert(forall|k: int| 0 <= k < len ==> strings(history@)[k] == (#[trigger] history@[k])@);
    if len == 0 {
        return (pos, draft.to_owned());
    }
    match pos {
        None => if older {
            (Some(len - 1), history[len - 1].clone())
        } else {
            (None, draft.to_owned())
        },
        Some(i) => if older {
            let j: usize = if i == 0 {
                0
            } else if i <= len {
                i - 1
            } else {
                len - 1
            };
            (Some(j), history[j].clone())
        } else if i >= len - 1 {
            (None, draft.to_owned())
        } else {
            (Some(i + 1), history[i + 1].clone())
        },
    }
}

/// Going back through the history and forward again ends at the draft it was
/// entered with.
pub proof fn browsing_returns_to_the_draft(h: Seq<Seq<char>>, draft: Seq<char>)
    requires
        0 < h.len() <= usize::MAX,
    ensures
        ({
            let (pos, text) = browsed(h, None, draft, true);
            browsed(h, pos, draft, false) == (None::<usize>, draft)
        }),
        forall|i: usize|
            0 < i < h.len() ==> {
                let (pos, text) = #[trigger] browsed(h, Some(i), draft, true);
                browsed(h, pos, draft, false) == (Some(i), h[i as int])
            },
{
}

} // verus!
