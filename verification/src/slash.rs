//! What the slash commands do.
use crate::app::{
    action_views,
    no_actions,
    one_action,
    Action,
    ActionView,
    App,
    AppModel,
};
use crate::complete::{palette_entries, slash_palette};
use crate::fit::{line_text, text_of_line};
use crate::input::{cycle_mode, loop_prompt, loop_text, next_mode, SlashAction, SlashView};
use crate::menu::{MenuPage, MenuState, PageView};
use crate::paths::{join_path, path_join};
use crate::report::{memory_report, memory_status_lines, read_texts};
use crate::styled::{append_lines, line, line_views, span, span_views, styled_line, Line, LineView, Span};
use crate::text::{
    chars_of,
    decimal,
    is_text_le,
    lemma_text_le_total,
    lemma_text_le_trans,
    number,
    pad_right,
    push_padded_right,
    push_text,
    same,
    strings,
    text_le,
};
use crate::theme::Palette;
use crate::view::{AgentMode, Usage, ViewModel, ViewState};
use vstd::prelude::*;
use vstd::string::*;

verus! {

// ---- help -------------------------------------------------------------------
/// A command with its description comes before another, or is the same.
pub open spec fn entry_le(a: (Seq<char>, Seq<char>), b: (Seq<char>, Seq<char>)) -> bool {
    if a.0 == b.0 {
        text_le(a.1, b.1)
    } else {
        text_le(a.0, b.0)
    }
}

/// What some commands and descriptions hold.
pub open spec fn entry_views(v: Seq<(&'static str, &'static str)>) -> Seq<(Seq<char>, Seq<char>)> {
    v.map_values(|e: (&'static str, &'static str)| (e.0@, e.1@))
}

/// Commands in order with one more put in its place.
pub open spec fn with_entry(v: Seq<(Seq<char>, Seq<char>)>, e: (Seq<char>, Seq<char>)) -> Seq<
    (Seq<char>, Seq<char>),
>
    decreases v.len(),
{
    if v.len() == 0 {
        seq![e]
    } else if entry_le(v.last(), e) {
        v.push(e)
    } else {
        with_entry(v.drop_last(), e).push(v.last())
    }
}

/// The first `n` commands in order.
pub open spec fn in_order(v: Seq<(Seq<char>, Seq<char>)>, n: nat) -> Seq<(Seq<char>, Seq<char>)>
    decreases n,
{
    if n == 0 {
        Seq::empty()
    } else {
        with_entry(in_order(v, (n - 1) as nat), v[n - 1])
    }
}

/// Commands stand in order.
pub open spec fn entries_sorted(v: Seq<(Seq<char>, Seq<char>)>) -> bool {
    forall|i: int, j: int| 0 <= i < j < v.len() ==> entry_le(#[trigger] v[i], #[trigger] v[j])
}

proof fn lemma_text_le_antisymmetric(a: Seq<char>, b: Seq<char>)
    requires
        text_le(a, b),
        text_le(b, a),
    ensures
        a == b,
    decreases a.len(),
{
    if a.len() > 0 && b.len() > 0 {
        assert(a[0] == b[0]);
        lemma_text_le_antisymmetric(a.skip(1), b.skip(1));
        assert(a =~= seq![a[0]] + a.skip(1));
        assert(b =~= seq![b[0]] + b.skip(1));
    } else {
        assert(a =~= b);
    }
}

proof fn lemma_entry_le_total(a: (Seq<char>, Seq<char>), b: (Seq<char>, Seq<char>))
    ensures
        entry_le(a, b) || entry_le(b, a),
{
    lemma_text_le_total(a.0, b.0);
    lemma_text_le_total(a.1, b.1);
}

proof fn lemma_entry_le_trans(
    a: (Seq<char>, Seq<char>),
    b: (Seq<char>, Seq<char>),
    c: (Seq<char>, Seq<char>),
)
    requires
        entry_le(a, b),
        entry_le(b, c),
    ensures
        entry_le(a, c),
{
    if a.0 == b.0 && b.0 == c.0 {
        lemma_text_le_trans(a.1, b.1, c.1);
    } else if a.0 != b.0 && b.0 != c.0 {
        lemma_text_le_trans(a.0, b.0, c.0);
        if a.0 == c.0 {
            lemma_text_le_antisymmetric(a.0, b.0);
        }
    }
}

proof fn lemma_with_entry(v: Seq<(Seq<char>, Seq<char>)>, e: (Seq<char>, Seq<char>))
    requires
        entries_sorted(v),
    ensures
        entries_sorted(with_entry(v, e)),
        with_entry(v, e).to_multiset() == v.to_multiset().insert(e),
        with_entry(v, e).len() == v.len() + 1,
        forall|i: int|
            0 <= i < with_entry(v, e).len() ==> v.contains(#[trigger] with_entry(v, e)[i])
                || with_entry(v, e)[i] == e,
    decreases v.len(),
{
    broadcast use vstd::seq_lib::group_to_multiset_ensures;

    let w = with_entry(v, e);
    if v.len() == 0 {
        assert(w =~= v.push(e));
    } else if entry_le(v.last(), e) {
        assert forall|i: int, j: int| 0 <= i < j < w.len() implies entry_le(
            #[trigger] w[i],
            #[trigger] w[j],
        ) by {
            if j == v.len() && i < v.len() - 1 {
                assert(entry_le(v[i], v[v.len() - 1]));
                lemma_entry_le_trans(v[i], v.last(), e);
            }
        }
        assert forall|i: int| 0 <= i < w.len() implies v.contains(#[trigger] w[i]) || w[i] == e by {
            if i < v.len() {
                assert(v[i] == w[i]);
            }
        }
    } else {
        let u = v.drop_last();
        lemma_with_entry(u, e);
        let x = with_entry(u, e);
        lemma_entry_le_total(v.last(), e);
        assert forall|i: int, j: int| 0 <= i < j < w.len() implies entry_le(
            #[trigger] w[i],
            #[trigger] w[j],
        ) by {
            if j == x.len() {
                if u.contains(x[i]) {
                    let k = choose|k: int| 0 <= k < u.len() && u[k] == x[i];
                    assert(entry_le(v[k], v[v.len() - 1]));
                }
            } else {
                assert(entry_le(x[i], x[j]));
            }
        }
        assert forall|i: int| 0 <= i < w.len() implies v.contains(#[trigger] w[i]) || w[i] == e by {
            if i < x.len() {
                if u.contains(x[i]) {
                    let k = choose|k: int| 0 <= k < u.len() && u[k] == x[i];
                    assert(v[k] == w[i]);
                }
            } else {
                assert(v[v.len() - 1] == w[i]);
            }
        }
        assert(v =~= u.push(v.last()));
        assert(w.to_multiset() =~= v.to_multiset().insert(e));
    }
}

/// The commands that `/help` lists are all of them, each as often as it is
/// offered, in order of name.
pub proof fn help_lists_every_command_in_order(v: Seq<(Seq<char>, Seq<char>)>, n: nat)
    requires
        n <= v.len(),
    ensures
        entries_sorted(in_order(v, n)),
        in_order(v, n).to_multiset() == v.take(n as int).to_multiset(),
    decreases n,
{
    broadcast use vstd::seq_lib::group_to_multiset_ensures;

    if n == 0 {
        assert(v.take(0) =~= Seq::<(Seq<char>, Seq<char>)>::empty());
    } else {
        help_lists_every_command_in_order(v, (n - 1) as nat);
        lemma_with_entry(in_order(v, (n - 1) as nat), v[n - 1]);
        assert(v.take(n as int) =~= v.take(n - 1).push(v[n - 1]));
    }
}

fn is_entry_le(a: (&'static str, &'static str), b: (&'static str, &'static str)) -> (r: bool)
    ensures
        r == entry_le((a.0@, a.1@), (b.0@, b.1@)),
{
    if same(a.0, b.0) {
        is_text_le(chars_of(a.1).as_slice(), chars_of(b.1).as_slice())
    } else {
        is_text_le(chars_of(a.0).as_slice(), chars_of(b.0).as_slice())
    }
}

fn insert_entry(v: &mut Vec<(&'static str, &'static str)>, e: (&'static str, &'static str))
    ensures
        entry_views(final(v)@) == with_entry(entry_views(old(v)@), (e.0@, e.1@)),
{
    let ghost start = entry_views(v@);
    let ghost ev = (e.0@, e.1@);
    let mut i: usize = v.len();
    assert(start.take(i as int) + start.skip(i as int) =~= start);
    assert(start.skip(i as int) =~= Seq::empty());
    assert(start.take(i as int) =~= start);
    assert(with_entry(start, ev) =~= with_entry(start.take(i as int), ev) + start.skip(i as int));
    while i > 0 && !is_entry_le(v[i - 1], e)
        invariant
            i <= v@.len(),
            start == entry_views(v@),
            ev == (e.0@, e.1@),
            with_entry(start, ev) == with_entry(start.take(i as int), ev) + start.skip(i as int),
        decreases i,
    {
        let ghost t = start.take(i as int);
        assert(t.last() == (v@[i - 1].0@, v@[i - 1].1@));
        assert(t.drop_last() =~= start.take(i - 1));
        assert(with_entry(start.take(i - 1), ev).push(t.last()) + start.skip(i as int)
            =~= with_entry(start.take(i - 1), ev) + start.skip(i - 1));
        i -= 1;
    }
    let ghost t = start.take(i as int);
    assert(with_entry(t, ev) =~= t.push(ev)) by {
        if i > 0 {
            assert(t.last() == (v@[i - 1].0@, v@[i - 1].1@));
        }
    }
    v.insert(i, e);
    assert(entry_views(v@) =~= t.push(ev) + start.skip(i as int));
}

/// The rows of the commands.
pub open spec fn command_rows(v: Seq<(Seq<char>, Seq<char>)>, p: Palette) -> Seq<LineView> {
    v.map_values(
        |e: (Seq<char>, Seq<char>)|
            line(
                seq![
                    span("  "@ + pad_right(e.0, 16), p.code()),
                    span(e.1, p.chrome()),
                ],
            ),
    )
}

/// The keys that `/help` lists.
pub open spec fn key_texts() -> Seq<Seq<char>> {
    seq![
        "  @<path>      mention a file (tab completes)"@,
        "  Shift+Tab    cycle permission mode"@,
        "  Tab          queue a draft during an active turn"@,
        "  PgUp/PgDn    scroll the transcript"@,
        "  Alt+↑/↓      recall prompt history"@,
        "  drag         select text with your terminal, then copy"@,
        "  Ctrl+O       toggle wheel scrolling / native selection"@,
        "  Ctrl+W / U   delete word / clear the line"@,
        "  Esc          stop · send queued after tool · clear · quit"@,
        "  Ctrl+C       quit"@,
        "  exit / quit  quit (shell-style, typed in the composer)"@,
        "  SC_NO_ANIM=1 / NO_COLOR=1 disable motion / color"@,
    ]
}

/// Lines under a heading.
pub open spec fn info_rows(heading: Seq<char>, texts: Seq<Seq<char>>, p: Palette) -> Seq<LineView> {
    seq![styled_line(heading, p.accent())] + texts.map_values(
        |t: Seq<char>| styled_line(t, p.chrome()),
    )
}

/// What `/help` shows.
pub open spec fn help_rows(p: Palette) -> Seq<LineView> {
    let v = entry_views(palette_entries());
    seq![styled_line("commands"@, p.accent())] + command_rows(in_order(v, v.len()), p) + info_rows(
        "keys"@,
        key_texts(),
        p,
    )
}

fn ordered_palette() -> (out: Vec<(&'static str, &'static str)>)
    ensures
        entry_views(out@) == in_order(entry_views(palette_entries()), palette_entries().len()),
{
    let v: Vec<(&'static str, &'static str)> = slash_palette();
    let ghost all = entry_views(v@);
    let mut out: Vec<(&'static str, &'static str)> = Vec::new();
    let mut i: usize = 0;
    assert(entry_views(out@) =~= Seq::<(Seq<char>, Seq<char>)>::empty());
    while i < v.len()
        invariant
            i <= v@.len(),
            all == entry_views(v@),
            entry_views(out@) == in_order(all, i as nat),
        decreases v@.len() - i,
    {
        assert(all[i as int] == (v@[i as int].0@, v@[i as int].1@));
        insert_entry(&mut out, v[i]);
        i += 1;
    }
    out
}

fn command_row(e: (&'static str, &'static str), p: Palette) -> (l: Line)
    ensures
        l@ == line(seq![span("  "@ + pad_right(e.0@, 16), p.code()), span(e.1@, p.chrome())]),
{
    let mut t: Vec<char> = Vec::new();
    push_text(&mut t, "  ");
    push_padded_right(&mut t, chars_of(e.0).as_slice(), 16);
    assert(t@ =~= "  "@ + pad_right(e.0@, 16));
    let mut spans: Vec<Span> = Vec::new();
    spans.push(Span::of(t.as_slice(), p.code()));
    spans.push(Span::styled(e.1, p.chrome()));
    assert(span_views(spans@) =~= seq![
        span("  "@ + pad_right(e.0@, 16), p.code()),
        span(e.1@, p.chrome()),
    ]);
    Line::new(spans)
}

fn command_lines(v: &Vec<(&'static str, &'static str)>, p: Palette) -> (out: Vec<Line>)
    ensures
        line_views(out@) == command_rows(entry_views(v@), p),
{
    let ghost want = command_rows(entry_views(v@), p);
    let mut out: Vec<Line> = Vec::new();
    let mut i: usize = 0;
    while i < v.len()
        invariant
            i <= v@.len(),
            want == command_rows(entry_views(v@), p),
            line_views(out@) =~= want.take(i as int),
        decreases v@.len() - i,
    {
        let ghost before = line_views(out@);
        let l: Line = command_row(v[i], p);
        let ghost lv = l@;
        out.push(l);
        assert(line_views(out@) =~= before.push(lv));
        assert(want.take(i + 1) =~= want.take(i as int).push(want[i as int]));
        i += 1;
    }
    assert(want.take(i as int) =~= want);
    out
}

/// Lines under a heading.
fn info_lines(heading: &str, texts: &Vec<String>, p: Palette) -> (out: Vec<Line>)
    ensures
        line_views(out@) == info_rows(heading@, strings(texts@), p),
{
    let ghost want = info_rows(heading@, strings(texts@), p);
    let mut out: Vec<Line> = Vec::new();
    out.push(Line::styled(heading, p.accent()));
    let mut i: usize = 0;
    assert(line_views(out@) =~= want.take(1));
    while i < texts.len()
        invariant
            i <= texts@.len(),
            want == info_rows(heading@, strings(texts@), p),
            line_views(out@) =~= want.take(i + 1),
        decreases texts@.len() - i,
    {
        let ghost before = line_views(out@);
        let l: Line = Line::styled(texts[i].as_str(), p.chrome());
        let ghost lv = l@;
        out.push(l);
        assert(line_views(out@) =~= before.push(lv));
        assert(want[i + 1] == styled_line(strings(texts@)[i as int], p.chrome()));
        assert(want.take(i + 2) =~= want.take(i + 1).push(want[i + 1]));
        i += 1;
    }
    assert(want.take(i + 1) =~= want);
    out
}

fn key_lines() -> (out: Vec<String>)
    ensures
        strings(out@) == key_texts(),
{
    let mut out: Vec<String> = Vec::new();
    out.push("  @<path>      mention a file (tab completes)".to_owned());
    out.push("  Shift+Tab    cycle permission mode".to_owned());
    out.push("  Tab          queue a draft during an active turn".to_owned());
    out.push("  PgUp/PgDn    scroll the transcript".to_owned());
    out.push("  Alt+↑/↓      recall prompt history".to_owned());
    out.push("  drag         select text with your terminal, then copy".to_owned());
    out.push("  Ctrl+O       toggle wheel scrolling / native selection".to_owned());
    out.push("  Ctrl+W / U   delete word / clear the line".to_owned());
    out.push("  Esc          stop · send queued after tool · clear · quit".to_owned());
    out.push("  Ctrl+C       quit".to_owned());
    out.push("  exit / quit  quit (shell-style, typed in the composer)".to_owned());
    out.push("  SC_NO_ANIM=1 / NO_COLOR=1 disable motion / color".to_owned());
    assert(strings(out@) =~= key_texts());
    out
}

/// What `/help` shows.
pub fn help_lines(p: Palette) -> (out: Vec<Line>)
    ensures
        line_views(out@) == help_rows(p),
{
    let mut out: Vec<Line> = Vec::new();
    out.push(Line::styled("commands", p.accent()));
    assert(line_views(out@) =~= seq![styled_line("commands"@, p.accent())]);
    append_lines(&mut out, command_lines(&ordered_palette(), p));
    append_lines(&mut out, info_lines("keys", &key_lines(), p));
    out
}

// ---- what the session is like -----------------------------------------------
/// What a command needs to know of the surroundings.
#[derive(Debug, PartialEq, Eq)]
pub struct Surroundings {
    /// Animations are on.
    pub motion: bool,
    /// The working directory exists.
    pub cwd_present: bool,
    /// The last reported share of cached tokens, as a percentage.
    pub cache_label: String,
}

/// What the surroundings hold.
#[verifier::ext_equal]
pub struct SurroundingsView {
    pub motion: bool,
    pub cwd_present: bool,
    pub cache_label: Seq<char>,
}

impl View for Surroundings {
    type V = SurroundingsView;

    open spec fn view(&self) -> SurroundingsView {
        SurroundingsView {
            motion: self.motion,
            cwd_present: self.cwd_present,
            cache_label: self.cache_label@,
        }
    }
}

/// A mode by its own name.
pub open spec fn mode_word(m: AgentMode) -> Seq<char> {
    match m {
        AgentMode::Ask => "Ask"@,
        AgentMode::Default => "Default"@,
        AgentMode::AcceptEdits => "AcceptEdits"@,
        AgentMode::Plan => "Plan"@,
        AgentMode::Auto => "Auto"@,
    }
}

fn mode_word_of(m: AgentMode) -> (r: &'static str)
    ensures
        r@ == mode_word(m),
{
    match m {
        AgentMode::Ask => "Ask",
        AgentMode::Default => "Default",
        AgentMode::AcceptEdits => "AcceptEdits",
        AgentMode::Plan => "Plan",
        AgentMode::Auto => "Auto",
    }
}

/// What `/cost` says.
pub open spec fn cost_texts(u: Option<Usage>, cache_label: Seq<char>) -> Seq<Seq<char>> {
    match u {
        Some(u) => seq![
            "  prompt      "@ + decimal(u.prompt_tokens as nat) + " tok"@,
            "  completion  "@ + decimal(u.completion_tokens as nat) + " tok"@,
            "  total       "@ + decimal(u.total_tokens as nat) + " tok"@,
            "  cache hit   "@ + if u.cache_hit_rate is Some {
                cache_label
            } else {
                "not reported"@
            },
        ],
        None => seq!["  no usage reported yet"@],
    }
}

fn cost_lines(u: Option<Usage>, cache_label: &str) -> (out: Vec<String>)
    ensures
        strings(out@) == cost_texts(u, cache_label@),
{
    let mut out: Vec<String> = Vec::new();
    match u {
        Some(u) => {
            let cache: &str = if u.cache_hit_rate.is_some() {
                cache_label
            } else {
                "not reported"
            };
            out.push(
                "  prompt      ".to_owned().concat(number(u.prompt_tokens).as_str()).concat(" tok"),
            );
            out.push(
                "  completion  ".to_owned().concat(number(u.completion_tokens).as_str()).concat(
                    " tok",
                ),
            );
            out.push(
                "  total       ".to_owned().concat(number(u.total_tokens).as_str()).concat(" tok"),
            );
            out.push("  cache hit   ".to_owned().concat(cache));
        },
        None => {
            out.push("  no usage reported yet".to_owned());
        },
    }
    assert(strings(out@) =~= cost_texts(u, cache_label@));
    out
}

impl ViewModel {
    /// What `/context` says.
    pub open spec fn context_texts(self) -> Seq<Seq<char>> {
        match self.context_tokens {
            Some(n) => if self.context_tokens_estimated {
                seq!["  tokens  ~"@ + decimal(n as nat) + " (preflight estimate)"@]
            } else {
                seq!["  tokens  "@ + decimal(n as nat) + " (provider reported)"@]
            },
            None => seq!["  no context token count yet"@],
        }
    }

    /// What `/status` says.
    pub open spec fn status_texts(self, cwd: Seq<char>) -> Seq<Seq<char>> {
        seq![
            "  model   "@ + self.model_name,
            "  mode    "@ + mode_word(self.mode),
            "  cwd     "@ + cwd,
            "  busy    "@ + if self.busy {
                "true"@
            } else {
                "false"@
            },
            "  lines   "@ + decimal(self.transcript.len()),
        ]
    }

    /// What `/permissions` says.
    pub open spec fn permission_texts(self) -> Seq<Seq<char>> {
        seq![
            "  mode   "@ + mode_word(self.mode),
            "  rules  per-tool allow/deny are set at startup;"@,
            "         /mode or Shift+Tab cycles the mode."@,
        ]
    }

    /// What `/doctor` says.
    pub open spec fn doctor_texts(self, cwd: Seq<char>, around: SurroundingsView, p: Palette) -> Seq<
        Seq<char>,
    > {
        seq![
            "  model      "@ + self.model_name,
            "  cwd        "@ + cwd + " ("@ + (if around.cwd_present {
                "present"@
            } else {
                "missing"@
            }) + ")"@,
            "  term rows  "@ + decimal(self.area_height as nat),
            "  color      "@ + if p.no_color {
                "off (NO_COLOR)"@
            } else {
                "on"@
            },
            "  motion     "@ + if around.motion {
                "on"@
            } else {
                "off (SC_NO_ANIM)"@
            },
        ]
    }

    /// Lines under a heading added to the transcript.
    pub open spec fn informed(self, heading: Seq<char>, texts: Seq<Seq<char>>, p: Palette) -> ViewModel {
        ViewModel { transcript: self.transcript + info_rows(heading, texts, p), ..self }
    }

    /// The transcript cleared and no turn running.
    #[verifier::opaque]
    pub open spec fn fresh(self) -> ViewModel {
        ViewModel { current_text: Seq::empty(), ..self.cleared() }.at_rest()
    }
}

/// What `/terminal-setup` says.
pub open spec fn terminal_texts() -> Seq<Seq<char>> {
    seq![
        "  bind Shift+Enter to send a newline / CSI-u sequence"@,
        "  sc accepts bracketed paste and ordinary Enter submits"@,
    ]
}

/// The texts of the first `n` lines, with newlines between them.
pub open spec fn transcript_text(v: Seq<LineView>, n: nat) -> Seq<char>
    decreases n,
{
    if n == 0 {
        Seq::empty()
    } else if n == 1 {
        line_text(v[0])
    } else {
        transcript_text(v, (n - 1) as nat) + seq!['\n'] + line_text(v[n - 1])
    }
}

impl AppModel {
    /// What a command that leaves the session as it is asks to be done.
    #[verifier::opaque]
    pub open spec fn requested(self, a: SlashView) -> Seq<ActionView> {
        let v = self.view;
        match a {
            SlashView::Menu => seq![ActionView::OpenMenu],
            SlashView::ShowGoal => seq![ActionView::ShowGoal],
            SlashView::SetGoal(g) => seq![ActionView::SetGoal(Some(g))],
            SlashView::ClearGoal => seq![ActionView::SetGoal(None)],
            SlashView::Loop(d) => seq![ActionView::Submit(loop_text(d))],
            SlashView::Rewind { steps } => seq![ActionView::Rewind { steps }],
            SlashView::Export => seq![
                ActionView::Export {
                    path: path_join(self.cwd, "sc-export.txt"@),
                    body: transcript_text(v.transcript, v.transcript.len()),
                },
            ],
            SlashView::Resume => seq![ActionView::OpenResume],
            SlashView::Login => seq![ActionView::OpenLogin],
            SlashView::Memory => seq![ActionView::ReadMemory],
            SlashView::Prompt(t) => seq![ActionView::Submit(t)],
            _ => Seq::empty(),
        }
    }

    /// The help shown.
    #[verifier::opaque]
    pub open spec fn helped(self, p: Palette) -> AppModel {
        AppModel {
            view: ViewModel { transcript: self.view.transcript + help_rows(p), ..self.view },
            ..self
        }
    }

    /// Nothing shown and nothing going on.
    #[verifier::opaque]
    pub open spec fn cleared(self) -> AppModel {
        AppModel { view: self.view.fresh(), live_tools: Seq::empty(), ..self }
    }

    /// The next permission mode.
    #[verifier::opaque]
    pub open spec fn next_mode(self) -> AppModel {
        AppModel { view: ViewModel { mode: next_mode(self.view.mode), ..self.view }, ..self }
    }

    /// The mouse handed back to the terminal, or taken again.
    #[verifier::opaque]
    pub open spec fn mouse_toggled(self) -> AppModel {
        AppModel {
            view: ViewModel { mouse_capture: !self.view.mouse_capture, ..self.view },
            ..self
        }
    }

    /// What a slash command changes, and what is to be done.
    pub open spec fn slashed(self, a: SlashView, around: SurroundingsView, p: Palette) -> (
        AppModel,
        Seq<ActionView>,
    ) {
        let v = self.view;
        match a {
            SlashView::Help => (self.helped(p), Seq::empty()),
            SlashView::Clear => (self.cleared(), Seq::empty()),
            SlashView::Compact => (self.cleared(), seq![ActionView::Compact]),
            SlashView::CycleMode => (
                self.next_mode(),
                seq![ActionView::SetMode(next_mode(v.mode))],
            ),
            SlashView::SelectMode => (
                self.mouse_toggled(),
                seq![ActionView::CaptureMouse(!v.mouse_capture)],
            ),
            SlashView::Quit => (AppModel { quit: true, ..self }, seq![ActionView::Quit]),
            _ => if asks(a) {
                (AppModel { view: v.answered(a, self.cwd, around, p), ..self }, Seq::empty())
            } else {
                (self, self.requested(a))
            },
        }
    }
}

/// The command only asks something.
pub open spec fn asks(a: SlashView) -> bool {
    a is Cost || a is Context || a is Status || a is Model || a is Permissions || a is Doctor || a
        is History || a is TerminalSetup
}

fn only_asks(a: &SlashAction) -> (r: bool)
    ensures
        r == asks(a@),
{
    match a {
        SlashAction::Cost
        | SlashAction::Context
        | SlashAction::Status
        | SlashAction::Model
        | SlashAction::Permissions
        | SlashAction::Doctor
        | SlashAction::History
        | SlashAction::TerminalSetup => true,
        _ => false,
    }
}

impl ViewModel {
    /// The answer to a command that only asks.
    #[verifier::opaque]
    pub open spec fn answered(
        self,
        a: SlashView,
        cwd: Seq<char>,
        around: SurroundingsView,
        p: Palette,
    ) -> ViewModel {
        match a {
            SlashView::Cost => self.informed(
                "usage"@,
                cost_texts(self.last_usage, around.cache_label),
                p,
            ),
            SlashView::Context => self.informed("context"@, self.context_texts(), p),
            SlashView::Status => self.informed("status"@, self.status_texts(cwd), p),
            SlashView::Model => self.remarked("model: "@ + self.model_name, p),
            SlashView::Permissions => self.informed("permissions"@, self.permission_texts(), p),
            SlashView::Doctor => self.informed("doctor"@, self.doctor_texts(cwd, around, p), p),
            SlashView::History => self.remarked(
                "history: "@ + decimal(self.transcript.len())
                    + " transcript lines this session"@,
                p,
            ),
            SlashView::TerminalSetup => self.informed("terminal setup"@, terminal_texts(), p),
            _ => self,
        }
    }
}

impl ViewState {
    /// Add lines under a heading to the transcript.
    pub fn push_info(&mut self, heading: &str, texts: &Vec<String>, p: Palette)
        ensures
            final(self)@ == old(self)@.informed(heading@, strings(texts@), p),
    {
        append_lines(&mut self.transcript, info_lines(heading, texts, p));
    }

    fn context_lines(&self) -> (out: Vec<String>)
        ensures
            strings(out@) == self@.context_texts(),
    {
        let mut out: Vec<String> = Vec::new();
        match self.context_tokens {
            Some(n) => {
                if self.context_tokens_estimated {
                    out.push(
                        "  tokens  ~".to_owned().concat(number(n).as_str()).concat(
                            " (preflight estimate)",
                        ),
                    );
                } else {
                    out.push(
                        "  tokens  ".to_owned().concat(number(n).as_str()).concat(
                            " (provider reported)",
                        ),
                    );
                }
            },
            None => {
                out.push("  no context token count yet".to_owned());
            },
        }
        assert(strings(out@) =~= self@.context_texts());
        out
    }

    fn status_lines(&self, cwd: &str) -> (out: Vec<String>)
        ensures
            strings(out@) == self@.status_texts(cwd@),
    {
        let mut out: Vec<String> = Vec::new();
        out.push("  model   ".to_owned().concat(self.model_name.as_str()));
        out.push("  mode    ".to_owned().concat(mode_word_of(self.mode)));
        out.push("  cwd     ".to_owned().concat(cwd));
        out.push(
            "  busy    ".to_owned().concat(
                if self.busy {
                    "true"
                } else {
                    "false"
                },
            ),
        );
        let n: usize = self.transcript.len();
        out.push("  lines   ".to_owned().concat(number(n as u64).as_str()));
        assert(strings(out@) =~= self@.status_texts(cwd@));
        out
    }

    fn permission_lines(&self) -> (out: Vec<String>)
        ensures
            strings(out@) == self@.permission_texts(),
    {
        let mut out: Vec<String> = Vec::new();
        out.push("  mode   ".to_owned().concat(mode_word_of(self.mode)));
        out.push("  rules  per-tool allow/deny are set at startup;".to_owned());
        out.push("         /mode or Shift+Tab cycles the mode.".to_owned());
        assert(strings(out@) =~= self@.permission_texts());
        out
    }

    fn doctor_lines(&self, cwd: &str, around: &Surroundings, p: Palette) -> (out: Vec<String>)
        ensures
            strings(out@) == self@.doctor_texts(cwd@, around@, p),
    {
        let mut out: Vec<String> = Vec::new();
        out.push("  model      ".to_owned().concat(self.model_name.as_str()));
        out.push(
            "  cwd        ".to_owned().concat(cwd).concat(" (").concat(
                if around.cwd_present {
                    "present"
                } else {
                    "missing"
                },
            ).concat(")"),
        );
        out.push("  term rows  ".to_owned().concat(number(self.area_height as u64).as_str()));
        out.push(
            "  color      ".to_owned().concat(
                if p.no_color {
                    "off (NO_COLOR)"
                } else {
                    "on"
                },
            ),
        );
        out.push(
            "  motion     ".to_owned().concat(
                if around.motion {
                    "on"
                } else {
                    "off (SC_NO_ANIM)"
                },
            ),
        );
        assert(strings(out@) =~= self@.doctor_texts(cwd@, around@, p));
        out
    }

    fn transcript_text(&self) -> (r: String)
        ensures
            r@ == transcript_text(self@.transcript, self@.transcript.len()),
    {
        let ghost v = self@.transcript;
        let mut out: String = String::new();
        let mut i: usize = 0;
        assert(out@ =~= Seq::<char>::empty());
        while i < self.transcript.len()
            invariant
                i <= self.transcript@.len(),
                v == self@.transcript,
                out@ == transcript_text(v, i as nat),
            decreases self.transcript@.len() - i,
        {
            assert(v[i as int] == self.transcript@[i as int]@);
            let t: String = text_of_line(&self.transcript[i]);
            let ghost before = out@;
            if i > 0 {
                out.push('\n');
                assert(out@ =~= before + seq!['\n']);
            }
            out.append(t.as_str());
            assert(i == 0 ==> out@ =~= t@);
            i += 1;
        }
        out
    }

    /// Clear the transcript and what belongs to a turn.
    fn start_fresh(&mut self)
        ensures
            final(self)@ == old(self)@.fresh(),
    {
        proof {
            reveal(ViewModel::fresh);
        }
        self.clear_transcript();
        self.current_text = String::new();
        assert(self@ =~= (ViewModel { current_text: Seq::empty(), ..old(self)@.cleared() }));
        self.reset_turn();
    }

    /// Answer a command that only asks.
    fn answer(&mut self, a: &SlashAction, cwd: &str, around: &Surroundings, p: Palette)
        ensures
            final(self)@ == old(self)@.answered(a@, cwd@, around@, p),
    {
        proof {
            reveal(ViewModel::answered);
        }
        match a {
            SlashAction::Cost => {
                let t: Vec<String> = cost_lines(self.last_usage, around.cache_label.as_str());
                self.push_info("usage", &t, p);
            },
            SlashAction::Context => {
                let t: Vec<String> = self.context_lines();
                self.push_info("context", &t, p);
            },
            SlashAction::Status => {
                let t: Vec<String> = self.status_lines(cwd);
                self.push_info("status", &t, p);
            },
            SlashAction::Model => {
                let t: String = "model: ".to_owned().concat(self.model_name.as_str());
                self.remark(t.as_str(), p);
            },
            SlashAction::Permissions => {
                let t: Vec<String> = self.permission_lines();
                self.push_info("permissions", &t, p);
            },
            SlashAction::Doctor => {
                let t: Vec<String> = self.doctor_lines(cwd, around, p);
                self.push_info("doctor", &t, p);
            },
            SlashAction::History => {
                let n: usize = self.transcript.len();
                let t: String = "history: ".to_owned().concat(number(n as u64).as_str()).concat(
                    " transcript lines this session",
                );
                self.remark(t.as_str(), p);
            },
            SlashAction::TerminalSetup => {
                let mut t: Vec<String> = Vec::new();
                t.push("  bind Shift+Enter to send a newline / CSI-u sequence".to_owned());
                t.push("  sc accepts bracketed paste and ordinary Enter submits".to_owned());
                assert(strings(t@) =~= terminal_texts());
                self.push_info("terminal setup", &t, p);
            },
            _ => {},
        }
    }
}

impl App {
    /// Hand the mouse back to the terminal, or take it again.
    pub fn toggle_mouse_capture(&mut self) -> (r: Vec<Action>)
        ensures
            final(self)@ == old(self)@.mouse_toggled(),
            action_views(r@) == seq![ActionView::CaptureMouse(!old(self)@.view.mouse_capture)],
    {
        proof {
            reveal(AppModel::mouse_toggled);
        }
        self.view.mouse_capture = !self.view.mouse_capture;
        one_action(Action::CaptureMouse(self.view.mouse_capture))
    }

    /// Go on to the next permission mode.
    pub fn step_mode(&mut self) -> (r: Vec<Action>)
        ensures
            final(self)@ == old(self)@.next_mode(),
            action_views(r@) == seq![ActionView::SetMode(next_mode(old(self)@.view.mode))],
    {
        proof {
            reveal(AppModel::next_mode);
        }
        let next: AgentMode = cycle_mode(self.view.mode);
        self.view.mode = next;
        one_action(Action::SetMode(next))
    }

    fn clear_session(&mut self)
        ensures
            final(self)@ == old(self)@.cleared(),
    {
        proof {
            reveal(AppModel::cleared);
        }
        self.view.start_fresh();
        self.live_tools.clear();
        assert(crate::turn::live_views(self.live_tools@) =~= Seq::empty());
    }

    /// What a command that leaves the session as it is asks to be done.
    fn request(&self, action: SlashAction) -> (r: Vec<Action>)
        ensures
            action_views(r@) == self@.requested(action@),
    {
        proof {
            reveal(AppModel::requested);
        }
        match action {
            SlashAction::Menu => one_action(Action::OpenMenu),
            SlashAction::ShowGoal => one_action(Action::ShowGoal),
            SlashAction::SetGoal(g) => one_action(Action::SetGoal(Some(g))),
            SlashAction::ClearGoal => one_action(Action::SetGoal(None)),
            SlashAction::Loop(d) => {
                let t: String = match &d {
                    Some(x) => loop_prompt(Some(x.as_str())),
                    None => loop_prompt(None),
                };
                one_action(Action::Submit(t))
            },
            SlashAction::Rewind { steps } => one_action(Action::Rewind { steps }),
            SlashAction::Export => {
                let path: String = join_path(self.cwd.as_str(), "sc-export.txt");
                let body: String = self.view.transcript_text();
                one_action(Action::Export { path, body })
            },
            SlashAction::Resume => one_action(Action::OpenResume),
            SlashAction::Login => one_action(Action::OpenLogin),
            SlashAction::Memory => one_action(Action::ReadMemory),
            SlashAction::Prompt(t) => one_action(Action::Submit(t)),
            _ => no_actions(),
        }
    }

    fn show_help(&mut self, p: Palette)
        ensures
            final(self)@ == old(self)@.helped(p),
    {
        proof {
            reveal(AppModel::helped);
        }
        append_lines(&mut self.view.transcript, help_lines(p));
    }

    /// Run a slash command.
    pub fn run_slash(&mut self, action: SlashAction, around: &Surroundings, p: Palette) -> (r: Vec<
        Action,
    >)
        ensures
            (final(self)@, action_views(r@)) == old(self)@.slashed(action@, around@, p),
    {
        if only_asks(&action) {
            self.view.answer(&action, self.cwd.as_str(), around, p);
            return no_actions();
        }
        match action {
            SlashAction::Help => {
                self.show_help(p);
                no_actions()
            },
            SlashAction::Clear => {
                self.clear_session();
                no_actions()
            },
            SlashAction::Compact => {
                self.clear_session();
                one_action(Action::Compact)
            },
            SlashAction::CycleMode => self.step_mode(),
            SlashAction::SelectMode => self.toggle_mouse_capture(),
            SlashAction::Quit => {
                self.quit = true;
                one_action(Action::Quit)
            },
            other => self.request(other),
        }
    }

    /// The menu has been read in: show it.
    pub fn open_menu(&mut self, menu: MenuState)
        ensures
            final(self)@ == (AppModel {
                view: ViewModel { menu_overlay: Some(menu@), ..old(self)@.view },
                ..old(self)@
            }),
    {
        self.view.menu_overlay = Some(menu);
    }

    /// The menu has been read in: show the sessions of this directory, or the
    /// projects where it has none.
    pub fn open_resume(&mut self, menu: MenuState)
        ensures
            final(self)@ == (AppModel {
                view: ViewModel {
                    menu_overlay: Some(
                        menu@.on(
                            if menu@.find_project(old(self)@.cwd) is Some {
                                PageView::Sessions(old(self)@.cwd)
                            } else {
                                PageView::Projects
                            },
                        ),
                    ),
                    ..old(self)@.view
                },
                ..old(self)@
            }),
    {
        let mut menu = menu;
        let page: MenuPage = match menu.find_project(self.cwd.as_str()) {
            Some(_) => MenuPage::Sessions(self.cwd.clone()),
            None => MenuPage::Projects,
        };
        menu.goto(page);
        self.view.menu_overlay = Some(menu);
    }

    /// The menu has been read in: ask for the key.
    pub fn open_login(&mut self, menu: MenuState)
        ensures
            final(self)@ == (AppModel {
                view: ViewModel {
                    menu_overlay: Some(
                        crate::menu::MenuView {
                            editing: Some(Seq::empty()),
                            editing_api_key: true,
                            status: None,
                            ..menu@
                        },
                    ),
                    ..old(self)@.view
                },
                ..old(self)@
            }),
    {
        let mut menu = menu;
        menu.begin_api_key_edit();
        self.view.menu_overlay = Some(menu);
    }

    /// The transcript has been written, or could not be.
    pub fn exported(&mut self, path: &str, failure: Option<String>, p: Palette)
        ensures
            final(self)@ == (AppModel {
                view: old(self)@.view.remarked(
                    match failure {
                        None => "exported transcript → "@ + path@,
                        Some(e) => "export failed: "@ + e@,
                    },
                    p,
                ),
                ..old(self)@
            }),
    {
        let t: String = match failure {
            None => "exported transcript → ".to_owned().concat(path),
            Some(e) => "export failed: ".to_owned().concat(e.as_str()),
        };
        self.view.remark(t.as_str(), p);
    }

    /// The memory files have been read: say which there are.
    pub fn memory_read(&mut self, places: &Vec<String>, read: &Vec<Option<String>>, p: Palette)
        requires
            places@.len() == read@.len(),
        ensures
            final(self)@ == (AppModel {
                view: old(self)@.view.informed(
                    "memory"@,
                    memory_report(strings(places@), read_texts(read@)),
                    p,
                ),
                ..old(self)@
            }),
    {
        let t: Vec<String> = memory_status_lines(places, read);
        self.view.push_info("memory", &t, p);
    }
}

/// A cleared session shows nothing, and no call is in flight.
pub proof fn clearing_leaves_nothing(s: AppModel, around: SurroundingsView, p: Palette)
    ensures
        ({
            let t = s.slashed(SlashView::Clear, around, p).0;
            &&& t.view.transcript.len() == 0
            &&& !t.view.streaming()
            &&& t.view.reasoning_blocks.len() == 0
            &&& t.view.tool_blocks.len() == 0
            &&& t.live_tools.len() == 0
            &&& !t.view.busy
            &&& t.view.pending_ask is None ==> t.view.welcoming()
        }),
{
    reveal(ViewModel::fresh);
    reveal(AppModel::cleared);
}

} // verus!
