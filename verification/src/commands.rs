//! What every slash command is and does, command by command.
use crate::app::{ActionView, AppModel};
use crate::complete::palette_entries;
use crate::input::{behind, digits_value, slash, SlashView};
use crate::slash::{
    cost_texts,
    entry_le,
    entry_views,
    in_order,
    info_rows,
    terminal_texts,
    SurroundingsView,
};
use crate::styled::{raw, LineView, SpanView};
use crate::text::{decimal, pad_right, stands_at, text_le, trim, trim_start, white};
use crate::theme::Palette;
use crate::view::{AgentMode, Usage, ViewModel};
use vstd::prelude::*;
use vstd::string::*;

verus! {

/// A text that does not start with a slash is no command.
pub proof fn only_slashes_are_commands(text: Seq<char>)
    requires
        trim(text).len() > 0,
        trim(text)[0] != '/',
    ensures
        slash(text) is None,
{
    reveal_strlit("/goal");
    reveal_strlit("/goal ");
    reveal_strlit("/loop");
    reveal_strlit("/loop ");
    reveal_strlit("/rewind");
    reveal_strlit("/clear");
    reveal_strlit("/c");
    reveal_strlit("/new");
    reveal_strlit("/menu");
    reveal_strlit("/m");
    reveal_strlit("/compact");
    reveal_strlit("/cc");
    reveal_strlit("/context");
    reveal_strlit("/cost");
    reveal_strlit("/usage");
    reveal_strlit("/status");
    reveal_strlit("/s");
    reveal_strlit("/model");
    reveal_strlit("/mode");
    reveal_strlit("/permissions");
    reveal_strlit("/approval");
    reveal_strlit("/select");
    reveal_strlit("/mouse");
    reveal_strlit("/doctor");
    reveal_strlit("/history");
    reveal_strlit("/export");
    reveal_strlit("/quit");
    reveal_strlit("/exit");
    reveal_strlit("/q");
    reveal_strlit("/resume");
    reveal_strlit("/login");
    reveal_strlit("/memory");
    reveal_strlit("/terminal-setup");
    reveal_strlit("/help");
    reveal_strlit("/h");
    reveal_strlit("/?");
    reveal_strlit("/review");
    reveal_strlit("/pr");
    reveal_strlit("/init");
    reveal_strlit("/diff");
    reveal_strlit("/release-notes");
    reveal_strlit("/bug");
    reveal_strlit("/doc");
    reveal_strlit("/docs");
    reveal_strlit("/fix");
    reveal_strlit("/explain");
    reveal_strlit("/edit");
    reveal_strlit("/codebase");
    let t = trim(text);
    assert(!stands_at(t, "/goal "@, 0)) by {
        if stands_at(t, "/goal "@, 0) {
            assert(t.subrange(0, 6)[0] == "/goal "@[0]);
        }
    }
    assert(!stands_at(t, "/loop "@, 0)) by {
        if stands_at(t, "/loop "@, 0) {
            assert(t.subrange(0, 6)[0] == "/loop "@[0]);
        }
    }
    assert(!stands_at(t, "/rewind"@, 0)) by {
        if stands_at(t, "/rewind"@, 0) {
            assert(t.subrange(0, 7)[0] == "/rewind"@[0]);
        }
    }
}

/// A text that stands at the start of another agrees with it there.
proof fn lemma_stands(t: Seq<char>, p: Seq<char>, i: int)
    requires
        stands_at(t, p, 0),
        0 <= i < p.len(),
    ensures
        t[i] == p[i],
{
    assert(t.subrange(0, p.len() as int)[i] == p[i]);
}

/// Which of the commands with arguments a word without any might be.
proof fn lemma_bare(t: Seq<char>)
    requires
        t.len() >= 2,
        t[1] != 'g' || t.len() < 6,
        t[1] != 'l' || t.len() < 6 || t[2] != 'o' || t[3] != 'o',
        t[1] != 'r' || t.len() < 7 || t[3] != 'w',
    ensures
        behind(t, "/goal "@) is None,
        behind(t, "/loop "@) is None,
        behind(t, "/rewind"@) is None,
{
    reveal_strlit("/goal ");
    reveal_strlit("/loop ");
    reveal_strlit("/rewind");
    if stands_at(t, "/goal "@, 0) {
        lemma_stands(t, "/goal "@, 1);
    }
    if stands_at(t, "/loop "@, 0) {
        lemma_stands(t, "/loop "@, 1);
        lemma_stands(t, "/loop "@, 2);
        lemma_stands(t, "/loop "@, 3);
    }
    if stands_at(t, "/rewind"@, 0) {
        lemma_stands(t, "/rewind"@, 1);
        lemma_stands(t, "/rewind"@, 3);
    }
}

/// The commands about what is on show and what it costs, white space around them
/// set aside.
#[verifier::spinoff_prover]
#[verifier::rlimit(60)]
pub proof fn commands_about_the_session(text: Seq<char>)
    ensures
        (trim(text) == "/clear"@ || trim(text) == "/c"@ || trim(text) == "/new"@) ==> slash(text) == Some(SlashView::Clear),
        (trim(text) == "/menu"@ || trim(text) == "/m"@) ==> slash(text) == Some(SlashView::Menu),
        (trim(text) == "/compact"@ || trim(text) == "/cc"@) ==> slash(text) == Some(SlashView::Compact),
        trim(text) == "/context"@ ==> slash(text) == Some(SlashView::Context),
        (trim(text) == "/cost"@ || trim(text) == "/usage"@) ==> slash(text) == Some(SlashView::Cost),
        (trim(text) == "/status"@ || trim(text) == "/s"@) ==> slash(text) == Some(SlashView::Status),
        trim(text) == "/model"@ ==> slash(text) == Some(SlashView::Model),
        trim(text) == "/mode"@ ==> slash(text) == Some(SlashView::CycleMode),
        (trim(text) == "/permissions"@ || trim(text) == "/approval"@) ==> slash(text) == Some(SlashView::Permissions),
{
    reveal_strlit("/goal");
    reveal_strlit("/goal ");
    reveal_strlit("/loop");
    reveal_strlit("/loop ");
    reveal_strlit("/rewind");
    reveal_strlit("/clear");
    reveal_strlit("/c");
    reveal_strlit("/new");
    reveal_strlit("/menu");
    reveal_strlit("/m");
    reveal_strlit("/compact");
    reveal_strlit("/cc");
    reveal_strlit("/context");
    reveal_strlit("/cost");
    reveal_strlit("/usage");
    reveal_strlit("/status");
    reveal_strlit("/s");
    reveal_strlit("/model");
    reveal_strlit("/mode");
    reveal_strlit("/permissions");
    reveal_strlit("/approval");
    assert("/menu"@[1] != "/goal"@[1]);
    assert("/menu"@[1] != "/loop"@[1]);
    assert("/m"@[1] != "/c"@[1]);
    assert("/context"@[3] != "/compact"@[3]);
    assert("/cost"@[1] != "/goal"@[1]);
    assert("/cost"@[1] != "/loop"@[1]);
    assert("/cost"@[1] != "/menu"@[1]);
    assert("/usage"@[1] != "/clear"@[1]);
    assert("/status"@[1] != "/rewind"@[1]);
    assert("/s"@[1] != "/c"@[1]);
    assert("/s"@[1] != "/m"@[1]);
    assert("/model"@[1] != "/clear"@[1]);
    assert("/model"@[1] != "/usage"@[1]);
    assert("/mode"@[1] != "/goal"@[1]);
    assert("/mode"@[1] != "/loop"@[1]);
    assert("/mode"@[1] != "/cost"@[1]);
    assert("/mode"@[2] != "/menu"@[2]);
    let t = trim(text);
    if t == "/clear"@ || t == "/c"@ || t == "/new"@ || t == "/menu"@ || t == "/m"@ || t == "/compact"@ || t == "/cc"@ || t == "/context"@ || t == "/cost"@ || t == "/usage"@ || t == "/status"@ || t == "/s"@ || t == "/model"@ || t == "/mode"@ || t == "/permissions"@ || t == "/approval"@ {
        lemma_bare(t);
    }
}

/// The other commands of a word.
#[verifier::spinoff_prover]
#[verifier::rlimit(60)]
pub proof fn commands_about_the_host(text: Seq<char>)
    ensures
        (trim(text) == "/select"@ || trim(text) == "/mouse"@) ==> slash(text) == Some(SlashView::SelectMode),
        trim(text) == "/doctor"@ ==> slash(text) == Some(SlashView::Doctor),
        trim(text) == "/history"@ ==> slash(text) == Some(SlashView::History),
        trim(text) == "/export"@ ==> slash(text) == Some(SlashView::Export),
        (trim(text) == "/quit"@ || trim(text) == "/exit"@ || trim(text) == "/q"@) ==> slash(text) == Some(SlashView::Quit),
        trim(text) == "/resume"@ ==> slash(text) == Some(SlashView::Resume),
        trim(text) == "/login"@ ==> slash(text) == Some(SlashView::Login),
        trim(text) == "/memory"@ ==> slash(text) == Some(SlashView::Memory),
        trim(text) == "/terminal-setup"@ ==> slash(text) == Some(SlashView::TerminalSetup),
        (trim(text) == "/help"@ || trim(text) == "/h"@ || trim(text) == "/?"@) ==> slash(text) == Some(SlashView::Help),
{
    reveal_strlit("/goal");
    reveal_strlit("/goal ");
    reveal_strlit("/loop");
    reveal_strlit("/loop ");
    reveal_strlit("/rewind");
    reveal_strlit("/clear");
    reveal_strlit("/c");
    reveal_strlit("/new");
    reveal_strlit("/menu");
    reveal_strlit("/m");
    reveal_strlit("/compact");
    reveal_strlit("/cc");
    reveal_strlit("/context");
    reveal_strlit("/cost");
    reveal_strlit("/usage");
    reveal_strlit("/status");
    reveal_strlit("/s");
    reveal_strlit("/model");
    reveal_strlit("/mode");
    reveal_strlit("/permissions");
    reveal_strlit("/approval");
    reveal_strlit("/select");
    reveal_strlit("/mouse");
    reveal_strlit("/doctor");
    reveal_strlit("/history");
    reveal_strlit("/export");
    reveal_strlit("/quit");
    reveal_strlit("/exit");
    reveal_strlit("/q");
    reveal_strlit("/resume");
    reveal_strlit("/login");
    reveal_strlit("/memory");
    reveal_strlit("/terminal-setup");
    reveal_strlit("/help");
    reveal_strlit("/h");
    reveal_strlit("/?");
    assert("/select"@[1] != "/rewind"@[1]);
    assert("/select"@[2] != "/status"@[2]);
    assert("/mouse"@[1] != "/clear"@[1]);
    assert("/mouse"@[1] != "/usage"@[1]);
    assert("/mouse"@[3] != "/model"@[3]);
    assert("/doctor"@[1] != "/rewind"@[1]);
    assert("/doctor"@[1] != "/status"@[1]);
    assert("/doctor"@[1] != "/select"@[1]);
    assert("/history"@[1] != "/compact"@[1]);
    assert("/history"@[1] != "/context"@[1]);
    assert("/export"@[1] != "/rewind"@[1]);
    assert("/export"@[1] != "/status"@[1]);
    assert("/export"@[1] != "/select"@[1]);
    assert("/export"@[1] != "/doctor"@[1]);
    assert("/quit"@[1] != "/goal"@[1]);
    assert("/quit"@[1] != "/loop"@[1]);
    assert("/quit"@[1] != "/menu"@[1]);
    assert("/quit"@[1] != "/cost"@[1]);
    assert("/quit"@[1] != "/mode"@[1]);
    assert("/exit"@[1] != "/goal"@[1]);
    assert("/exit"@[1] != "/loop"@[1]);
    assert("/exit"@[1] != "/menu"@[1]);
    assert("/exit"@[1] != "/cost"@[1]);
    assert("/exit"@[1] != "/mode"@[1]);
    assert("/exit"@[1] != "/quit"@[1]);
    assert("/q"@[1] != "/c"@[1]);
    assert("/q"@[1] != "/m"@[1]);
    assert("/q"@[1] != "/s"@[1]);
    assert("/resume"@[3] != "/rewind"@[3]);
    assert("/resume"@[1] != "/status"@[1]);
    assert("/resume"@[1] != "/select"@[1]);
    assert("/resume"@[1] != "/doctor"@[1]);
    assert("/resume"@[1] != "/export"@[1]);
    assert("/login"@[1] != "/clear"@[1]);
    assert("/login"@[1] != "/usage"@[1]);
    assert("/login"@[1] != "/model"@[1]);
    assert("/login"@[1] != "/mouse"@[1]);
    assert("/memory"@[1] != "/rewind"@[1]);
    assert("/memory"@[1] != "/status"@[1]);
    assert("/memory"@[1] != "/select"@[1]);
    assert("/memory"@[1] != "/doctor"@[1]);
    assert("/memory"@[1] != "/export"@[1]);
    assert("/memory"@[1] != "/resume"@[1]);
    assert("/help"@[1] != "/goal"@[1]);
    assert("/help"@[1] != "/loop"@[1]);
    assert("/help"@[1] != "/menu"@[1]);
    assert("/help"@[1] != "/cost"@[1]);
    assert("/help"@[1] != "/mode"@[1]);
    assert("/help"@[1] != "/quit"@[1]);
    assert("/help"@[1] != "/exit"@[1]);
    assert("/h"@[1] != "/c"@[1]);
    assert("/h"@[1] != "/m"@[1]);
    assert("/h"@[1] != "/s"@[1]);
    assert("/h"@[1] != "/q"@[1]);
    assert("/?"@[1] != "/c"@[1]);
    assert("/?"@[1] != "/m"@[1]);
    assert("/?"@[1] != "/s"@[1]);
    assert("/?"@[1] != "/q"@[1]);
    assert("/?"@[1] != "/h"@[1]);
    assert("/terminal-setup"@[1] == 't');
    let t = trim(text);
    if t == "/select"@ || t == "/mouse"@ || t == "/doctor"@ || t == "/history"@ || t == "/export"@ || t == "/quit"@ || t == "/exit"@ || t == "/q"@ || t == "/resume"@ || t == "/login"@ || t == "/memory"@ || t == "/terminal-setup"@ || t == "/help"@ || t == "/h"@ || t == "/?"@ {
        lemma_bare(t);
    }
}

/// The commands that stand for an instruction to the model.
#[verifier::spinoff_prover]
#[verifier::rlimit(60)]
pub proof fn commands_that_are_instructions(text: Seq<char>)
    ensures
        trim(text) == "/review"@ ==> slash(text) == Some(
            SlashView::Prompt("Review the pending code changes on the current branch. Summarize the diff, flag risks and bugs, and suggest concrete fixes."@),
        ),
        trim(text) == "/pr"@ ==> slash(text) == Some(
            SlashView::Prompt("Create a pull request for the current branch: summarize the changes and generate a title and body."@),
        ),
        trim(text) == "/init"@ ==> slash(text) == Some(
            SlashView::Prompt("Initialize an AGENTS.md file documenting this codebase: structure, build/test commands, and conventions."@),
        ),
        trim(text) == "/diff"@ ==> slash(text) == Some(
            SlashView::Prompt("Show the diff of pending changes using git."@),
        ),
        trim(text) == "/release-notes"@ ==> slash(text) == Some(
            SlashView::Prompt("Generate release notes from the recent git history."@),
        ),
        trim(text) == "/bug"@ ==> slash(text) == Some(
            SlashView::Prompt("Help me report a bug: summarize the current problem and any recent errors from this session."@),
        ),
        trim(text) == "/doc"@ ==> slash(text) == Some(
            SlashView::Prompt("Generate documentation for the relevant code."@),
        ),
        trim(text) == "/docs"@ ==> slash(text) == Some(
            SlashView::Prompt("Read and summarize the relevant documentation."@),
        ),
        trim(text) == "/fix"@ ==> slash(text) == Some(
            SlashView::Prompt("Find and fix bugs in the relevant code."@),
        ),
        trim(text) == "/explain"@ ==> slash(text) == Some(
            SlashView::Prompt("Explain the relevant code."@),
        ),
        trim(text) == "/edit"@ ==> slash(text) == Some(
            SlashView::Prompt("Apply the requested edits to the code."@),
        ),
        trim(text) == "/codebase"@ ==> slash(text) == Some(
            SlashView::Prompt("Summarize the structure of this codebase for context."@),
        ),
{
    reveal_strlit("/goal");
    reveal_strlit("/goal ");
    reveal_strlit("/loop");
    reveal_strlit("/loop ");
    reveal_strlit("/rewind");
    reveal_strlit("/clear");
    reveal_strlit("/c");
    reveal_strlit("/new");
    reveal_strlit("/menu");
    reveal_strlit("/m");
    reveal_strlit("/compact");
    reveal_strlit("/cc");
    reveal_strlit("/context");
    reveal_strlit("/cost");
    reveal_strlit("/usage");
    reveal_strlit("/status");
    reveal_strlit("/s");
    reveal_strlit("/model");
    reveal_strlit("/mode");
    reveal_strlit("/permissions");
    reveal_strlit("/approval");
    reveal_strlit("/select");
    reveal_strlit("/mouse");
    reveal_strlit("/doctor");
    reveal_strlit("/history");
    reveal_strlit("/export");
    reveal_strlit("/quit");
    reveal_strlit("/exit");
    reveal_strlit("/q");
    reveal_strlit("/resume");
    reveal_strlit("/login");
    reveal_strlit("/memory");
    reveal_strlit("/terminal-setup");
    reveal_strlit("/help");
    reveal_strlit("/h");
    reveal_strlit("/?");
    reveal_strlit("/review");
    reveal_strlit("/pr");
    reveal_strlit("/init");
    reveal_strlit("/diff");
    reveal_strlit("/release-notes");
    reveal_strlit("/bug");
    reveal_strlit("/doc");
    reveal_strlit("/docs");
    reveal_strlit("/fix");
    reveal_strlit("/explain");
    reveal_strlit("/edit");
    reveal_strlit("/codebase");
    assert("/review"@[3] != "/rewind"@[3]);
    assert("/review"@[3] != "/resume"@[3]);
    assert("/review"@[1] != "/status"@[1]);
    assert("/review"@[1] != "/select"@[1]);
    assert("/review"@[1] != "/doctor"@[1]);
    assert("/review"@[1] != "/export"@[1]);
    assert("/review"@[1] != "/memory"@[1]);
    assert("/pr"@[1] != "/cc"@[1]);
    assert("/init"@[1] != "/goal"@[1]);
    assert("/init"@[1] != "/loop"@[1]);
    assert("/init"@[1] != "/menu"@[1]);
    assert("/init"@[1] != "/cost"@[1]);
    assert("/init"@[1] != "/mode"@[1]);
    assert("/init"@[1] != "/quit"@[1]);
    assert("/init"@[1] != "/exit"@[1]);
    assert("/init"@[1] != "/help"@[1]);
    assert("/diff"@[1] != "/goal"@[1]);
    assert("/diff"@[1] != "/loop"@[1]);
    assert("/diff"@[1] != "/menu"@[1]);
    assert("/diff"@[1] != "/cost"@[1]);
    assert("/diff"@[1] != "/mode"@[1]);
    assert("/diff"@[1] != "/quit"@[1]);
    assert("/diff"@[1] != "/exit"@[1]);
    assert("/diff"@[1] != "/help"@[1]);
    assert("/diff"@[1] != "/init"@[1]);
    assert("/bug"@[1] != "/new"@[1]);
    assert("/doc"@[1] != "/new"@[1]);
    assert("/doc"@[1] != "/bug"@[1]);
    assert("/docs"@[1] != "/goal"@[1]);
    assert("/docs"@[1] != "/loop"@[1]);
    assert("/docs"@[1] != "/menu"@[1]);
    assert("/docs"@[1] != "/cost"@[1]);
    assert("/docs"@[1] != "/mode"@[1]);
    assert("/docs"@[1] != "/quit"@[1]);
    assert("/docs"@[1] != "/exit"@[1]);
    assert("/docs"@[1] != "/help"@[1]);
    assert("/docs"@[1] != "/init"@[1]);
    assert("/docs"@[2] != "/diff"@[2]);
    assert("/fix"@[1] != "/new"@[1]);
    assert("/fix"@[1] != "/bug"@[1]);
    assert("/fix"@[1] != "/doc"@[1]);
    assert("/explain"@[1] != "/compact"@[1]);
    assert("/explain"@[1] != "/context"@[1]);
    assert("/explain"@[1] != "/history"@[1]);
    assert("/edit"@[1] != "/goal"@[1]);
    assert("/edit"@[1] != "/loop"@[1]);
    assert("/edit"@[1] != "/menu"@[1]);
    assert("/edit"@[1] != "/cost"@[1]);
    assert("/edit"@[1] != "/mode"@[1]);
    assert("/edit"@[1] != "/quit"@[1]);
    assert("/edit"@[1] != "/help"@[1]);
    assert("/edit"@[1] != "/init"@[1]);
    assert("/edit"@[1] != "/diff"@[1]);
    assert("/edit"@[1] != "/docs"@[1]);
    assert("/edit"@[2] != "/exit"@[2]);
    assert("/codebase"@[1] != "/approval"@[1]);
    assert("/release-notes"@[3] == 'l');
    assert("/explain"@[1] == 'e');
    assert("/codebase"@[1] == 'c');
    let t = trim(text);
    if t == "/explain"@ {
        assert(t[1] == 'e' && t.len() == 8);
        lemma_bare(t);
        assert(behind(t, "/rewind"@) is None);
        assert(crate::input::canned(t) is Some);
        assert(crate::input::command(t) == Some(SlashView::Prompt("Explain the relevant code."@)));
    }
    if t == "/release-notes"@ {
        assert(t[1] == 'r' && t.len() == 14 && t[3] == 'l');
        lemma_bare(t);
        assert(crate::input::canned(t) is Some);
        assert(crate::input::command(t) == Some(
            SlashView::Prompt("Generate release notes from the recent git history."@),
        ));
    }
    if t == "/review"@ || t == "/pr"@ || t == "/init"@ || t == "/diff"@ || t == "/release-notes"@ || t == "/bug"@ || t == "/doc"@ || t == "/docs"@ || t == "/fix"@ || t == "/explain"@ || t == "/edit"@ || t == "/codebase"@ {
        lemma_bare(t);
    }
}

// ---- commands with arguments ------------------------------------------------
/// A text with no white space at either end.
pub open spec fn tight(s: Seq<char>) -> bool {
    s.len() > 0 && !white(s[0]) && !white(s.last())
}

proof fn lemma_tight(s: Seq<char>)
    requires
        tight(s),
    ensures
        trim(s) == s,
{
}

/// What is behind a prefix is the rest.
proof fn lemma_behind(p: Seq<char>, rest: Seq<char>)
    ensures
        behind(p + rest, p) == Some(rest),
{
    assert((p + rest).subrange(0, p.len() as int) =~= p);
    assert((p + rest).skip(p.len() as int) =~= rest);
}

/// `/goal` with a text sets that text as the goal; with the word `clear`, in
/// letters of any case, it clears the goal; alone it shows it.
pub proof fn goals_are_set_shown_and_cleared(goal: Seq<char>)
    requires
        tight(goal),
    ensures
        !crate::text::same_but_case(goal, "clear"@) ==> slash("/goal "@ + goal) == Some(
            SlashView::SetGoal(goal),
        ),
        crate::text::same_but_case(goal, "clear"@) ==> slash("/goal "@ + goal) == Some(
            SlashView::ClearGoal,
        ),
        slash("/goal"@) == Some(SlashView::ShowGoal),
{
    reveal_strlit("/goal ");
    reveal_strlit("/goal");
    let t = "/goal "@ + goal;
    assert(t[0] == '/');
    assert(t.last() == goal.last());
    lemma_tight(t);
    lemma_tight(goal);
    lemma_behind("/goal "@, goal);
    assert("/goal"@.last() == 'l');
    lemma_tight("/goal"@);
}

/// `/loop` with a text goes on in that direction, alone in none.
pub proof fn loops_take_a_direction(direction: Seq<char>)
    requires
        tight(direction),
    ensures
        slash("/loop "@ + direction) == Some(SlashView::Loop(Some(direction))),
        slash("/loop"@) == Some(SlashView::Loop(None)),
{
    reveal_strlit("/goal ");
    reveal_strlit("/goal");
    reveal_strlit("/loop ");
    reveal_strlit("/loop");
    let t = "/loop "@ + direction;
    assert(t[0] == '/' && t[1] == 'l');
    assert(t.last() == direction.last());
    lemma_tight(t);
    lemma_tight(direction);
    lemma_behind("/loop "@, direction);
    if stands_at(t, "/goal "@, 0) {
        lemma_stands(t, "/goal "@, 1);
    }
    assert("/loop"@.last() == 'p');
    lemma_tight("/loop"@);
    assert("/loop"@[1] != "/goal"@[1]);
}

/// A decimal digit has the value it stands for.
proof fn lemma_digits(n: nat)
    ensures
        digits_value(decimal(n)) == Some(n),
        decimal(n).len() > 0,
        forall|i: int| 0 <= i < decimal(n).len() ==> '0' <= #[trigger] decimal(n)[i] <= '9',
    decreases n,
{
    reveal_with_fuel(digits_value, 2);
    if n >= 10 {
        lemma_digits(n / 10);
        let d = decimal(n);
        assert(d.drop_last() =~= decimal(n / 10));
    } else {
        assert(decimal(n).drop_last() =~= Seq::<char>::empty());
    }
}

/// `/rewind` goes back by the number it is given, by one if it is given none, and
/// is no command with a nought.
pub proof fn rewinding_goes_back_as_far_as_it_says(n: nat)
    requires
        n <= usize::MAX,
    ensures
        n > 0 ==> slash("/rewind "@ + decimal(n)) == Some(SlashView::Rewind { steps: n }),
        n == 0 ==> slash("/rewind "@ + decimal(n)) is None,
        slash("/rewind"@) == Some(SlashView::Rewind { steps: 1 }),
{
    reveal_strlit("/goal ");
    reveal_strlit("/goal");
    reveal_strlit("/loop ");
    reveal_strlit("/loop");
    reveal_strlit("/rewind ");
    reveal_strlit("/rewind");
    let d = decimal(n);
    lemma_digits(n);
    let t = "/rewind "@ + d;
    assert(t[0] == '/' && t[1] == 'r');
    assert(t.last() == d.last());
    assert(d[0] <= '9' && d.last() <= '9');
    lemma_tight(t);
    lemma_tight(d);
    assert(t =~= "/rewind"@ + (seq![' '] + d));
    lemma_behind("/rewind"@, seq![' '] + d);
    assert((seq![' '] + d).skip(1) =~= d);
    assert(trim(seq![' '] + d) == d) by {
        assert(trim_start(seq![' '] + d) == trim_start(d));
    }
    if stands_at(t, "/goal "@, 0) {
        lemma_stands(t, "/goal "@, 1);
    }
    if stands_at(t, "/loop "@, 0) {
        lemma_stands(t, "/loop "@, 1);
    }
    let r = "/rewind"@;
    assert(r[0] == '/' && r[1] == 'r' && r.last() == 'd');
    lemma_tight(r);
    assert(r =~= r + Seq::<char>::empty());
    lemma_behind(r, Seq::empty());
    if stands_at(r, "/goal "@, 0) {
        lemma_stands(r, "/goal "@, 1);
    }
    if stands_at(r, "/loop "@, 0) {
        lemma_stands(r, "/loop "@, 1);
    }
}

// ---- what commands do -------------------------------------------------------
/// What the commands ask of the host.
pub proof fn what_commands_ask_for(
    s: AppModel,
    around: SurroundingsView,
    p: Palette,
    text: Seq<char>,
    n: nat,
)
    ensures
        s.slashed(SlashView::Menu, around, p) == (s, seq![ActionView::OpenMenu]),
        s.slashed(SlashView::ShowGoal, around, p) == (s, seq![ActionView::ShowGoal]),
        s.slashed(SlashView::SetGoal(text), around, p) == (
            s,
            seq![ActionView::SetGoal(Some(text))],
        ),
        s.slashed(SlashView::ClearGoal, around, p) == (s, seq![ActionView::SetGoal(None)]),
        s.slashed(SlashView::Rewind { steps: n }, around, p) == (
            s,
            seq![ActionView::Rewind { steps: n }],
        ),
        s.slashed(SlashView::Resume, around, p) == (s, seq![ActionView::OpenResume]),
        s.slashed(SlashView::Login, around, p) == (s, seq![ActionView::OpenLogin]),
        s.slashed(SlashView::Memory, around, p) == (s, seq![ActionView::ReadMemory]),
        s.slashed(SlashView::Prompt(text), around, p) == (s, seq![ActionView::Submit(text)]),
        s.slashed(SlashView::Quit, around, p).0.quit,
        s.slashed(SlashView::Quit, around, p).0.view == s.view,
        s.slashed(SlashView::Quit, around, p).1 == seq![ActionView::Quit],
        s.slashed(SlashView::Clear, around, p).1.len() == 0,
        s.slashed(SlashView::Clear, around, p).0.view.transcript.len() == 0,
        s.slashed(SlashView::Compact, around, p).1 == seq![ActionView::Compact],
        s.slashed(SlashView::Compact, around, p).0.view.transcript.len() == 0,
        s.slashed(SlashView::SelectMode, around, p).1 == seq![
            ActionView::CaptureMouse(!s.view.mouse_capture),
        ],
        s.slashed(SlashView::SelectMode, around, p).0.view.mouse_capture == !s.view.mouse_capture,
        s.slashed(SlashView::CycleMode, around, p).1 == seq![
            ActionView::SetMode(s.slashed(SlashView::CycleMode, around, p).0.view.mode),
        ],
        s.view.mode == AgentMode::Plan ==> s.slashed(SlashView::CycleMode, around, p).0.view.mode
            == AgentMode::Auto,
{
    reveal(AppModel::requested);
    reveal(AppModel::cleared);
    reveal(AppModel::mouse_toggled);
    reveal(AppModel::next_mode);
    reveal(ViewModel::fresh);
    reveal(ViewModel::cleared);
    reveal(ViewModel::at_rest);
}

/// `/loop` submits one instruction, which ends in the direction it was given.
pub proof fn loops_submit_their_direction(
    s: AppModel,
    around: SurroundingsView,
    p: Palette,
    direction: Seq<char>,
)
    ensures
        ({
            let (t, acts) = s.slashed(SlashView::Loop(Some(direction)), around, p);
            let (u, plain) = s.slashed(SlashView::Loop(None), around, p);
            &&& t == s && u == s
            &&& acts.len() == 1 && acts[0] is Submit
            &&& plain.len() == 1 && plain[0] is Submit
            &&& acts[0]->Submit_0 == plain[0]->Submit_0 + " Additional direction: "@ + direction
        }),
{
    reveal(AppModel::requested);
}

/// A command that only asks something adds its answer below the transcript and
/// changes nothing else.
pub proof fn questions_are_answered_below(
    s: AppModel,
    around: SurroundingsView,
    p: Palette,
    a: SlashView,
)
    requires
        a is Cost || a is Context || a is Status || a is Model || a is Permissions || a is Doctor || a
            is History || a is TerminalSetup || a is Help,
    ensures
        ({
            let (t, acts) = s.slashed(a, around, p);
            let n = s.view.transcript.len() as int;
            &&& acts.len() == 0
            &&& t.view.transcript.len() > n
            &&& t.view.transcript.take(n) == s.view.transcript
            &&& t == AppModel {
                view: ViewModel { transcript: t.view.transcript, ..s.view },
                ..s
            }
        }),
{
    reveal(AppModel::helped);
    reveal(ViewModel::answered);
    reveal(ViewModel::remarked);
    let (t, acts) = s.slashed(a, around, p);
    assert(t.view.transcript.take(s.view.transcript.len() as int) =~= s.view.transcript);
}

/// A heading and the texts below it, at the end.
pub open spec fn told_below(
    before: Seq<LineView>,
    after: Seq<LineView>,
    heading: Seq<char>,
    texts: Seq<Seq<char>>,
    p: Palette,
) -> bool {
    let n = before.len() as int;
    &&& after.len() == n + 1 + texts.len()
    &&& after.take(n) == before
    &&& after[n] == LineView { spans: seq![raw(heading)], style: p.accent() }
    &&& forall|i: int|
        0 <= i < texts.len() ==> #[trigger] after[n + 1 + i] == (LineView {
            spans: seq![raw(texts[i])],
            style: p.chrome(),
        })
}

proof fn lemma_told_below(before: Seq<LineView>, heading: Seq<char>, texts: Seq<Seq<char>>, p: Palette)
    ensures
        told_below(before, before + info_rows(heading, texts, p), heading, texts, p),
{
    let after = before + info_rows(heading, texts, p);
    assert(after.take(before.len() as int) =~= before);
}

/// What the commands about tokens answer.
pub proof fn what_is_said_of_tokens(
    s: AppModel,
    around: SurroundingsView,
    u: Usage,
    n: u64,
    p: Palette,
)
    ensures
        s.view.last_usage == Some(u) ==> told_below(
            s.view.transcript,
            s.slashed(SlashView::Cost, around, p).0.view.transcript,
            "usage"@,
            seq![
                "  prompt      "@ + decimal(u.prompt_tokens as nat) + " tok"@,
                "  completion  "@ + decimal(u.completion_tokens as nat) + " tok"@,
                "  total       "@ + decimal(u.total_tokens as nat) + " tok"@,
                "  cache hit   "@ + (if u.cache_hit_rate is Some {
                    around.cache_label
                } else {
                    "not reported"@
                }),
            ],
            p,
        ),
        s.view.last_usage is None ==> told_below(
            s.view.transcript,
            s.slashed(SlashView::Cost, around, p).0.view.transcript,
            "usage"@,
            seq!["  no usage reported yet"@],
            p,
        ),
        s.view.context_tokens == Some(n) && s.view.context_tokens_estimated ==> told_below(
            s.view.transcript,
            s.slashed(SlashView::Context, around, p).0.view.transcript,
            "context"@,
            seq!["  tokens  ~"@ + decimal(n as nat) + " (preflight estimate)"@],
            p,
        ),
        s.view.context_tokens == Some(n) && !s.view.context_tokens_estimated ==> told_below(
            s.view.transcript,
            s.slashed(SlashView::Context, around, p).0.view.transcript,
            "context"@,
            seq!["  tokens  "@ + decimal(n as nat) + " (provider reported)"@],
            p,
        ),
        s.view.context_tokens is None ==> told_below(
            s.view.transcript,
            s.slashed(SlashView::Context, around, p).0.view.transcript,
            "context"@,
            seq!["  no context token count yet"@],
            p,
        ),
{
    reveal(ViewModel::answered);
    let t = s.view.transcript;
    lemma_told_below(t, "usage"@, cost_texts(s.view.last_usage, around.cache_label), p);
    lemma_told_below(t, "context"@, s.view.context_texts(), p);
}

/// The name of a mode as the commands say it.
pub open spec fn mode_said(m: AgentMode, word: Seq<char>) -> bool {
    &&& m == AgentMode::Ask ==> word == "Ask"@
    &&& m == AgentMode::Default ==> word == "Default"@
    &&& m == AgentMode::AcceptEdits ==> word == "AcceptEdits"@
    &&& m == AgentMode::Plan ==> word == "Plan"@
    &&& m == AgentMode::Auto ==> word == "Auto"@
}

/// What the commands about the session answer.
pub proof fn what_is_said_of_the_session(
    s: AppModel,
    around: SurroundingsView,
    word: Seq<char>,
    p: Palette,
)
    requires
        mode_said(s.view.mode, word),
    ensures
        told_below(
            s.view.transcript,
            s.slashed(SlashView::Status, around, p).0.view.transcript,
            "status"@,
            seq![
                "  model   "@ + s.view.model_name,
                "  mode    "@ + word,
                "  cwd     "@ + s.cwd,
                "  busy    "@ + (if s.view.busy {
                    "true"@
                } else {
                    "false"@
                }),
                "  lines   "@ + decimal(s.view.transcript.len()),
            ],
            p,
        ),
        told_below(
            s.view.transcript,
            s.slashed(SlashView::Permissions, around, p).0.view.transcript,
            "permissions"@,
            seq![
                "  mode   "@ + word,
                "  rules  per-tool allow/deny are set at startup;"@,
                "         /mode or Shift+Tab cycles the mode."@,
            ],
            p,
        ),
        told_below(
            s.view.transcript,
            s.slashed(SlashView::Doctor, around, p).0.view.transcript,
            "doctor"@,
            seq![
                "  model      "@ + s.view.model_name,
                "  cwd        "@ + s.cwd + " ("@ + (if around.cwd_present {
                    "present"@
                } else {
                    "missing"@
                }) + ")"@,
                "  term rows  "@ + decimal(s.view.area_height as nat),
                "  color      "@ + (if p.no_color {
                    "off (NO_COLOR)"@
                } else {
                    "on"@
                }),
                "  motion     "@ + (if around.motion {
                    "on"@
                } else {
                    "off (SC_NO_ANIM)"@
                }),
            ],
            p,
        ),
        told_below(
            s.view.transcript,
            s.slashed(SlashView::TerminalSetup, around, p).0.view.transcript,
            "terminal setup"@,
            seq![
                "  bind Shift+Enter to send a newline / CSI-u sequence"@,
                "  sc accepts bracketed paste and ordinary Enter submits"@,
            ],
            p,
        ),
        s.slashed(SlashView::Model, around, p).0.view.transcript == s.view.transcript.push(
            LineView { spans: seq![raw("model: "@ + s.view.model_name)], style: p.chrome() },
        ),
        s.slashed(SlashView::History, around, p).0.view.transcript == s.view.transcript.push(
            LineView {
                spans: seq![
                    raw(
                        "history: "@ + decimal(s.view.transcript.len())
                            + " transcript lines this session"@,
                    ),
                ],
                style: p.chrome(),
            },
        ),
{
    reveal(ViewModel::answered);
    reveal(ViewModel::remarked);
    let t = s.view.transcript;
    lemma_told_below(t, "status"@, s.view.status_texts(s.cwd), p);
    lemma_told_below(t, "permissions"@, s.view.permission_texts(), p);
    lemma_told_below(t, "doctor"@, s.view.doctor_texts(s.cwd, around, p), p);
    lemma_told_below(t, "terminal setup"@, terminal_texts(), p);
}

/// What `/clear` and `/compact` leave, and what the modes and the mouse come to.
pub proof fn what_the_other_commands_do(s: AppModel, around: SurroundingsView, p: Palette)
    ensures
        ({
            let (t, acts) = s.slashed(SlashView::Compact, around, p);
            &&& acts == seq![ActionView::Compact]
            &&& t.view.transcript.len() == 0
            &&& !t.view.busy
            &&& t.live_tools.len() == 0
        }),
        s.slashed(SlashView::SelectMode, around, p) == (
            AppModel {
                view: ViewModel { mouse_capture: !s.view.mouse_capture, ..s.view },
                ..s
            },
            seq![ActionView::CaptureMouse(!s.view.mouse_capture)],
        ),
        s.view.mode == AgentMode::Plan ==> s.slashed(SlashView::CycleMode, around, p) == (
            AppModel { view: ViewModel { mode: AgentMode::Auto, ..s.view }, ..s },
            seq![ActionView::SetMode(AgentMode::Auto)],
        ),
        s.slashed(SlashView::Quit, around, p) == (
            AppModel { quit: true, ..s },
            seq![ActionView::Quit],
        ),
{
    reveal(AppModel::cleared);
    reveal(AppModel::mouse_toggled);
    reveal(AppModel::next_mode);
    reveal(ViewModel::fresh);
    reveal(ViewModel::cleared);
    reveal(ViewModel::at_rest);
}

/// The help lists the commands with what they do, in order of name, and then the
/// keys.
pub proof fn what_the_help_says(s: AppModel, around: SurroundingsView, p: Palette, i: int)
    ensures
        ({
            let t = s.slashed(SlashView::Help, around, p).0.view.transcript;
            let all = entry_views(palette_entries());
            let v = in_order(all, all.len());
            let n = s.view.transcript.len() as int;
            let k = n + 1 + v.len();
            &&& t.len() == k + 13
            &&& t[n].spans == seq![raw("commands"@)]
            &&& 0 <= i < v.len() ==> t[n + 1 + i].spans == seq![
                (SpanView { content: "  "@ + pad_right(v[i].0, 16), style: p.code() }),
                (SpanView { content: v[i].1, style: p.chrome() }),
            ]
            &&& t[k].spans == seq![raw("keys"@)]
            &&& t[k + 1].spans == seq![raw("  @<path>      mention a file (tab completes)"@)]
            &&& t[k + 2].spans == seq![raw("  Shift+Tab    cycle permission mode"@)]
            &&& t[k + 3].spans == seq![raw("  Tab          queue a draft during an active turn"@)]
            &&& t[k + 4].spans == seq![raw("  PgUp/PgDn    scroll the transcript"@)]
            &&& t[k + 5].spans == seq![raw("  Alt+↑/↓      recall prompt history"@)]
            &&& t[k + 7].spans == seq![
                raw("  Ctrl+O       toggle wheel scrolling / native selection"@),
            ]
            &&& t[k + 8].spans == seq![raw("  Ctrl+W / U   delete word / clear the line"@)]
            &&& t[k + 9].spans == seq![
                raw("  Esc          stop · send queued after tool · clear · quit"@),
            ]
            &&& t[k + 10].spans == seq![raw("  Ctrl+C       quit"@)]
        }),
{
    reveal(AppModel::helped);
}

/// Entries are in order of name, and those of the same name in order of what they
/// say.
pub proof fn how_entries_are_ordered(a: (Seq<char>, Seq<char>), b: (Seq<char>, Seq<char>))
    ensures
        a.0 != b.0 ==> (entry_le(a, b) <==> text_le(a.0, b.0)),
        a.0 == b.0 ==> (entry_le(a, b) <==> text_le(a.1, b.1)),
{
}

} // verus!
