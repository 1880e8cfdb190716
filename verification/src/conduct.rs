//! What a session does with every key, told key by key.
use crate::app::{ActionView, AppModel, ResponseView};
use crate::complete::MenuKind;
use crate::keys::{Key, KeyCode};
use crate::menu::{FieldKind, MenuView, OutcomeView, PageView, RowView, WriteView};
use crate::report::rule_for;
use crate::slash::SurroundingsView;
use crate::styled::{raw, LineView};
use crate::text::{byte_len, split};
use crate::theme::Palette;
use crate::view::{with_newlines, AgentMode, ChoiceView, PasteMarker, ViewModel};
use vstd::prelude::*;
use vstd::string::*;

verus! {

// ---- a question -------------------------------------------------------------
/// The question is the only thing open, and the key does not end the session.
pub open spec fn only_asking(s: AppModel, key: Key) -> bool {
    &&& s.view.menu_overlay is None
    &&& s.view.pending_ask is Some
    &&& !(key.modifiers.control && key.code == KeyCode::Char('c'))
}

/// The session as it is but for the question, which is closed.
pub open spec fn question_closed(before: AppModel, after: AppModel) -> bool {
    after == AppModel { view: ViewModel { pending_ask: None, ..before.view }, ..before }
}

/// The letter `n` refuses what is asked for, `y` allows it once.
pub proof fn yes_allows_and_no_denies(
    s: AppModel,
    key: Key,
    around: SurroundingsView,
    now: u64,
    p: Palette,
)
    requires
        only_asking(s, key),
    ensures
        key.code == KeyCode::Char('n') || key.code == KeyCode::Char('N') ==> {
            &&& s.keyed(key, around, now, p).1 == seq![
                ActionView::Answer {
                    id: s.view.pending_ask->0.id,
                    response: ResponseView::Deny("declined"@),
                },
            ]
            &&& question_closed(s, s.keyed(key, around, now, p).0)
        },
        key.code == KeyCode::Char('y') || key.code == KeyCode::Char('Y') ==> {
            &&& s.keyed(key, around, now, p).1 == seq![
                ActionView::Answer { id: s.view.pending_ask->0.id, response: ResponseView::Once },
            ]
            &&& question_closed(s, s.keyed(key, around, now, p).0)
        },
        key.code == KeyCode::Char('s') || key.code == KeyCode::Char('S') ==> {
            &&& s.keyed(key, around, now, p).1.len() == 1
            &&& s.keyed(key, around, now, p).1[0] matches ActionView::Answer { id, response }
            &&& id == s.view.pending_ask->0.id
            &&& response == ResponseView::Session(
                rule_for(s.view.pending_ask->0.tool, s.view.pending_ask->0.command),
            )
            &&& question_closed(s, s.keyed(key, around, now, p).0)
        },
        key.code == KeyCode::Char('a') || key.code == KeyCode::Char('A') ==> {
            &&& s.keyed(key, around, now, p).1.len() == 1
            &&& s.keyed(key, around, now, p).1[0] matches ActionView::Answer { id, response }
            &&& id == s.view.pending_ask->0.id
            &&& response == ResponseView::Always(
                rule_for(s.view.pending_ask->0.tool, s.view.pending_ask->0.command),
            )
            &&& question_closed(s, s.keyed(key, around, now, p).0)
        },
{
    reveal(AppModel::unasked);
}

/// Nothing but the letters `y`, `s` and `a` ever allows what is asked for.
pub proof fn no_other_key_allows(
    s: AppModel,
    key: Key,
    around: SurroundingsView,
    now: u64,
    p: Palette,
    i: int,
)
    requires
        only_asking(s, key),
        0 <= i < s.keyed(key, around, now, p).1.len(),
        s.keyed(key, around, now, p).1[i] is Answer,
        s.keyed(key, around, now, p).1[i]->response !is Deny,
    ensures
        key.code == KeyCode::Char('y') || key.code == KeyCode::Char('Y') || key.code
            == KeyCode::Char('s') || key.code == KeyCode::Char('S') || key.code == KeyCode::Char('a')
            || key.code == KeyCode::Char('A'),
{
}

/// A question that stays open lets nothing past it: any other letter, and Enter,
/// change nothing.
pub proof fn other_keys_wait_for_the_answer(
    s: AppModel,
    key: Key,
    around: SurroundingsView,
    now: u64,
    p: Palette,
)
    requires
        only_asking(s, key),
        key.code == KeyCode::Enter || key.code == KeyCode::Tab || key.code == KeyCode::Backspace
            || key.code == KeyCode::Char('x') || key.code == KeyCode::Char('c') || key.code
            == KeyCode::Char(' '),
    ensures
        s.keyed(key, around, now, p) == (s, Seq::<ActionView>::empty()),
{
}

/// Escape at a question of a running turn: with a prompt queued, the call is
/// refused and the prompt is to follow; otherwise the turn is cancelled. With no
/// turn running the question stays.
pub proof fn escape_at_a_question(
    s: AppModel,
    key: Key,
    around: SurroundingsView,
    now: u64,
    p: Palette,
)
    requires
        only_asking(s, key),
        key.code == KeyCode::Esc,
    ensures
        s.view.busy && s.view.queued_messages > 0 && !s.view.queued_after_tool ==> {
            let (t, acts) = s.keyed(key, around, now, p);
            &&& t.view.pending_ask is None
            &&& t.view.queued_after_tool
            &&& t.send_queued_after_tool
            &&& acts == seq![
                ActionView::Answer {
                    id: s.view.pending_ask->0.id,
                    response: ResponseView::Deny("declined"@),
                },
            ]
        },
        s.view.busy && (s.view.queued_messages <= 0 || s.view.queued_after_tool) ==> {
            let (t, acts) = s.keyed(key, around, now, p);
            &&& t.view.pending_ask is None
            &&& !t.view.queued_after_tool
            &&& !t.send_queued_after_tool
            &&& acts == seq![ActionView::Cancel]
        },
        !s.view.busy ==> s.keyed(key, around, now, p) == (s, Seq::<ActionView>::empty()),
{
    reveal(AppModel::unasked);
    reveal(AppModel::armed);
    reveal(AppModel::cancelled);
}

// ---- the composer -----------------------------------------------------------
/// Nothing is open but the composer, and the key does not end the session.
pub open spec fn only_composing(s: AppModel, key: Key) -> bool {
    &&& s.view.menu_overlay is None
    &&& s.view.pending_ask is None
    &&& s.view.menu is None
    &&& !(key.modifiers.control && key.code == KeyCode::Char('c'))
}

/// Nothing changed but what the composer holds, its marks and when it was typed
/// into.
pub open spec fn only_the_text_changed(before: AppModel, after: AppModel) -> bool {
    after == AppModel {
        view: ViewModel {
            composer: after.view.composer,
            paste_markers: after.view.paste_markers,
            last_input: after.view.last_input,
            ..before.view
        },
        ..before
    }
}

/// A character that is typed goes to the end of the composer.
pub proof fn typing_goes_to_the_end(
    s: AppModel,
    key: Key,
    c: char,
    around: SurroundingsView,
    now: u64,
    p: Palette,
)
    requires
        only_composing(s, key),
        !key.modifiers.control,
        key.code == KeyCode::Char(c),
    ensures
        ({
            let (t, acts) = s.keyed(key, around, now, p);
            &&& t.view.composer == s.view.composer.push(c)
            &&& t.view.paste_markers == s.view.paste_markers
            &&& t.view.last_input == Some(now)
            &&& only_the_text_changed(s, t)
            &&& acts == seq![ActionView::Complete]
        }),
{
    reveal(AppModel::showing);
    reveal(ViewModel::typed);
}

/// Backspace takes back the last character that was typed.
pub proof fn backspace_takes_back_a_character(
    s: AppModel,
    typed: Key,
    c: char,
    back: Key,
    around: SurroundingsView,
    now: u64,
    p: Palette,
)
    requires
        only_composing(s, typed),
        !typed.modifiers.control,
        typed.code == KeyCode::Char(c),
        back.code == KeyCode::Backspace,
        !back.modifiers.command && !back.modifiers.meta && !back.modifiers.alt,
    ensures
        ({
            let t = s.keyed(typed, around, now, p).0;
            let (u, acts) = t.keyed(back, around, now, p);
            &&& u.view.composer == s.view.composer
            &&& u.view.paste_markers.len() == 0
            &&& only_the_text_changed(s, u)
            &&& acts == seq![ActionView::Complete]
        }),
{
    reveal(AppModel::showing);
    reveal(ViewModel::typed);
    reveal(ViewModel::composing);
    assert(s.view.composer.push(c).drop_last() =~= s.view.composer);
}

/// The keys that empty the composer: Ctrl+U, and Backspace with the command key.
pub proof fn some_keys_empty_the_composer(
    s: AppModel,
    key: Key,
    around: SurroundingsView,
    now: u64,
    p: Palette,
)
    requires
        only_composing(s, key),
        (key.modifiers.control && (key.code == KeyCode::Char('u') || key.code == KeyCode::Char('U')))
            || ((key.modifiers.command || key.modifiers.meta) && key.code == KeyCode::Backspace),
    ensures
        ({
            let (t, acts) = s.keyed(key, around, now, p);
            &&& t.view.composer.len() == 0
            &&& t.view.paste_markers.len() == 0
            &&& only_the_text_changed(s, t)
            &&& acts == seq![ActionView::Complete]
        }),
{
    reveal(AppModel::showing);
    reveal(ViewModel::composing);
}

/// Ctrl+W and Alt+Backspace take back the last word: from a text that ends in
/// some words with single spaces between them, the last.
pub proof fn some_keys_take_back_a_word(
    s: AppModel,
    key: Key,
    front: Seq<char>,
    word: Seq<char>,
    around: SurroundingsView,
    now: u64,
    p: Palette,
)
    requires
        only_composing(s, key),
        (key.modifiers.control && (key.code == KeyCode::Char('w') || key.code == KeyCode::Char('W')))
            || (key.modifiers.alt && !key.modifiers.command && !key.modifiers.meta && key.code
            == KeyCode::Backspace),
        s.view.composer == front.push(' ') + word,
        word.len() > 0,
        forall|i: int| 0 <= i < word.len() ==> !crate::text::white(#[trigger] word[i]),
    ensures
        ({
            let (t, acts) = s.keyed(key, around, now, p);
            &&& t.view.composer == front
            &&& only_the_text_changed(s, t)
            &&& acts == seq![ActionView::Complete]
        }),
{
    reveal(AppModel::showing);
    reveal(ViewModel::composing);
    let text = front.push(' ') + word;
    assert(text.last() == word.last());
    assert(crate::text::trim_end(text) == text);
    lemma_last_white(front, word, text.len() as int);
    assert(text.take(front.len() as int) =~= front);
}

proof fn lemma_last_white(front: Seq<char>, word: Seq<char>, n: int)
    requires
        front.len() < n <= front.len() + 1 + word.len(),
        forall|i: int| 0 <= i < word.len() ==> !crate::text::white(#[trigger] word[i]),
    ensures
        crate::input::last_white_before(front.push(' ') + word, n) == Some(front.len() as int),
    decreases n,
{
    let text = front.push(' ') + word;
    if n == front.len() + 1 {
        assert(text[n - 1] == ' ');
    } else {
        assert(text[n - 1] == word[n - 1 - front.len() - 1]);
        lemma_last_white(front, word, n - 1);
    }
}

/// Enter on a draft while a turn runs keeps the draft; on an empty composer it
/// does nothing.
pub proof fn enter_keeps_what_cannot_be_sent(
    s: AppModel,
    key: Key,
    around: SurroundingsView,
    now: u64,
    p: Palette,
)
    requires
        only_composing(s, key),
        key.code == KeyCode::Enter,
    ensures
        s.view.composer.len() == 0 ==> s.keyed(key, around, now, p) == (
            s,
            Seq::<ActionView>::empty(),
        ),
        s.view.composer.len() > 0 && s.view.busy ==> {
            let (t, acts) = s.keyed(key, around, now, p);
            &&& t.view.composer == s.view.composer
            &&& t.pending_submit == s.pending_submit
            &&& t.quit == s.quit
            &&& t.view.transcript.len() == s.view.transcript.len() + 1
            &&& acts.len() == 0
        },
{
    reveal(AppModel::showing);
    reveal(AppModel::kept_waiting);
    reveal(ViewModel::remarked);
    reveal(ViewModel::at_bottom);
}

/// Enter on a prompt holds it back for a moment, whole, and empties the composer;
/// the bare words `exit` and `quit` end the session instead.
pub proof fn enter_sends_a_prompt(
    s: AppModel,
    key: Key,
    around: SurroundingsView,
    now: u64,
    p: Palette,
)
    requires
        only_composing(s, key),
        key.code == KeyCode::Enter,
        s.view.composer.len() > 0,
        !s.view.busy,
    ensures
        crate::text::trim(s.view.composer) == "exit"@ || crate::text::trim(s.view.composer)
            == "quit"@ ==> {
            let (t, acts) = s.keyed(key, around, now, p);
            &&& t.quit
            &&& t.pending_submit == s.pending_submit
            &&& acts == seq![ActionView::Quit, ActionView::Complete]
        },
        crate::text::trim(s.view.composer) != "exit"@ && crate::text::trim(s.view.composer)
            != "quit"@ && crate::text::trim(s.view.composer).len() > 0 && crate::text::trim(
            s.view.composer,
        )[0] != '/' ==> {
            let (t, acts) = s.keyed(key, around, now, p);
            &&& t.pending_submit == Some((s.view.composer, now))
            &&& t.view.composer.len() == 0
            &&& t.view.follow
            &&& t.quit == s.quit
            &&& t.view.transcript == s.view.transcript
            &&& acts == seq![ActionView::Complete]
        },
{
    reveal(AppModel::showing);
    reveal(AppModel::entered);
    reveal(AppModel::holding);
    reveal(AppModel::quitting);
    reveal(ViewModel::emptied);
    reveal(ViewModel::at_bottom);
    let t = crate::text::trim(s.view.composer);
    let q = seq![ActionView::Quit];
    assert(q.push(ActionView::Complete) =~= seq![ActionView::Quit, ActionView::Complete]);
    assert(Seq::<ActionView>::empty().push(ActionView::Complete) =~= seq![ActionView::Complete]);
    if t.len() > 0 && t[0] != '/' {
        crate::commands::only_slashes_are_commands(s.view.composer);
    }
}

/// Tab queues a draft behind a running turn, as it is, and otherwise does nothing.
pub proof fn tab_queues_behind_a_turn(
    s: AppModel,
    key: Key,
    around: SurroundingsView,
    now: u64,
    p: Palette,
)
    requires
        only_composing(s, key),
        key.code == KeyCode::Tab,
    ensures
        s.keyed(key, around, now, p).0 == s,
        s.view.busy && s.view.composer.len() > 0 ==> s.keyed(key, around, now, p).1 == seq![
            ActionView::Queue(s.view.composer),
        ],
        !(s.view.busy && s.view.composer.len() > 0) ==> s.keyed(key, around, now, p).1.len() == 0,
{
}

/// Shift+Tab goes through the modes in order, from the most careful to the least
/// and round again.
pub proof fn shift_tab_goes_through_the_modes(
    s: AppModel,
    key: Key,
    around: SurroundingsView,
    now: u64,
    p: Palette,
)
    requires
        only_composing(s, key),
        key.code == KeyCode::BackTab,
    ensures
        ({
            let (t, acts) = s.keyed(key, around, now, p);
            &&& acts == seq![ActionView::SetMode(t.view.mode)]
            &&& s.view.mode == AgentMode::Ask ==> t.view.mode == AgentMode::Default
            &&& s.view.mode == AgentMode::Default ==> t.view.mode == AgentMode::AcceptEdits
            &&& s.view.mode == AgentMode::AcceptEdits ==> t.view.mode == AgentMode::Plan
            &&& s.view.mode == AgentMode::Plan ==> t.view.mode == AgentMode::Auto
            &&& s.view.mode == AgentMode::Auto ==> t.view.mode == AgentMode::Ask
            &&& t == AppModel { view: ViewModel { mode: t.view.mode, ..s.view }, ..s }
        }),
{
    reveal(AppModel::next_mode);
}

/// Escape in the composer: a turn with a prompt queued hands over to it, any other
/// turn is cancelled; without a turn, browsing ends in the draft, a draft is
/// cleared, and an empty composer ends the session.
pub proof fn escape_in_the_composer(
    s: AppModel,
    key: Key,
    around: SurroundingsView,
    now: u64,
    p: Palette,
)
    requires
        only_composing(s, key),
        key.code == KeyCode::Esc,
    ensures
        ({
            let (t, acts) = s.keyed(key, around, now, p);
            &&& s.view.busy && s.view.queued_messages > 0 && !s.view.queued_after_tool
                ==> t.view.queued_after_tool && t.send_queued_after_tool && acts.len() == 0
                && t.view.busy && t.quit == s.quit
            &&& s.view.busy && (s.view.queued_messages <= 0 || s.view.queued_after_tool) ==> acts
                == seq![ActionView::Cancel] && !t.view.queued_after_tool
                && !t.send_queued_after_tool && t.quit == s.quit && t.view.composer
                == s.view.composer
            &&& !s.view.busy && s.view.history_pos is Some ==> t.view.history_pos is None
                && t.view.composer == s.view.history_draft && t.view.history_draft.len() == 0
                && t.quit == s.quit && acts == seq![ActionView::Complete]
            &&& !s.view.busy && s.view.history_pos is None && s.view.composer.len() > 0
                ==> t.view.composer.len() == 0 && t.quit == s.quit && acts == seq![
                ActionView::Complete,
            ]
            &&& !s.view.busy && s.view.history_pos is None && s.view.composer.len() == 0 ==> t.quit
                && acts == seq![ActionView::Quit]
        }),
{
    reveal(AppModel::showing);
    reveal(AppModel::armed);
    reveal(AppModel::cancelled);
    reveal(AppModel::quitting);
    reveal(ViewModel::composing);
    reveal(ViewModel::drafting);
    reveal(ViewModel::remarked);
    reveal(ViewModel::at_bottom);
}

/// Ctrl+O hands the mouse to the terminal, or takes it back.
pub proof fn the_mouse_changes_hands(
    s: AppModel,
    key: Key,
    around: SurroundingsView,
    now: u64,
    p: Palette,
)
    requires
        only_composing(s, key),
        key.modifiers.control,
        key.code == KeyCode::Char('o') || key.code == KeyCode::Char('O'),
    ensures
        s.keyed(key, around, now, p).0.view.mouse_capture == !s.view.mouse_capture,
        s.keyed(key, around, now, p).0.view.composer == s.view.composer,
        s.keyed(key, around, now, p).1 == seq![ActionView::CaptureMouse(!s.view.mouse_capture)],
{
    reveal(AppModel::mouse_toggled);
}

// ---- scrolling --------------------------------------------------------------
/// The keys that scroll, in a transcript of `total` lines of which `h` show and
/// the topmost is `top`: Home goes to the first line and End to the last; Up and
/// Page Up go back by a line and by what shows.
pub proof fn keys_scroll(
    s: AppModel,
    key: Key,
    around: SurroundingsView,
    now: u64,
    p: Palette,
    top: int,
    h: int,
)
    requires
        only_composing(s, key),
        !key.modifiers.alt,
        h == (if s.view.area_height > 1 {
            s.view.area_height
        } else {
            1
        }),
        top == s.view.shown_top(),
    ensures
        ({
            let (t, acts) = s.keyed(key, around, now, p);
            &&& key.code == KeyCode::Home ==> !t.view.follow && t.view.scroll_top == 0
            &&& key.code == KeyCode::End ==> t.view.follow
            &&& key.code == KeyCode::Up ==> !t.view.follow && t.view.scroll_top == (if top > 1 {
                top - 1
            } else {
                0
            })
            &&& key.code == KeyCode::PageUp ==> !t.view.follow && t.view.scroll_top == (if top > h {
                top - h
            } else {
                0
            })
            &&& (key.code == KeyCode::Down || key.code == KeyCode::PageDown) && s.view.follow ==> t
                == s
            &&& key.code == KeyCode::Down && !s.view.follow ==> if s.view.scroll_top + 1 + h
                < s.view.all_lines() {
                !t.view.follow && t.view.scroll_top == s.view.scroll_top + 1
            } else {
                t.view.follow
            }
            &&& key.code == KeyCode::PageDown && !s.view.follow ==> if s.view.scroll_top + h + h
                < s.view.all_lines() {
                !t.view.follow && t.view.scroll_top == s.view.scroll_top + h
            } else {
                t.view.follow
            }
            &&& key.code == KeyCode::Home || key.code == KeyCode::End || key.code == KeyCode::Up
                || key.code == KeyCode::Down || key.code == KeyCode::PageUp || key.code
                == KeyCode::PageDown ==> acts.len() == 0 && t == AppModel {
                view: ViewModel {
                    follow: t.view.follow,
                    scroll_top: t.view.scroll_top,
                    ..s.view
                },
                ..s
            }
        }),
{
    reveal(AppModel::showing);
    reveal(ViewModel::at_start);
    reveal(ViewModel::at_bottom);
}

/// Where the transcript stands: at its end while it follows, otherwise where it
/// is held, but never past its last screenful.
pub proof fn the_topmost_line(v: ViewModel, live: int)
    requires
        live == (if v.current_text.len() > 0 || v.current_reasoning.len() > 0 {
            v.current_parsed.len() as int
        } else if v.busy {
            1
        } else {
            0
        }),
        v.transcript.len() + live <= usize::MAX,
        v.area_height >= 1,
        v.scroll_top >= 0,
    ensures
        v.all_lines() == v.transcript.len() + live,
        v.follow && v.all_lines() >= v.area_height ==> v.shown_top() + v.area_height
            == v.all_lines(),
        v.all_lines() < v.area_height ==> v.shown_top() == 0,
        !v.follow && v.scroll_top + v.area_height <= v.all_lines() ==> v.shown_top()
            == v.scroll_top,
        0 <= v.shown_top(),
        v.shown_top() == 0 || v.shown_top() + v.area_height <= v.all_lines(),
{
}

// ---- browsing ---------------------------------------------------------------
/// Going back through the prompts: the first step keeps the draft and shows the
/// newest prompt, each further one the prompt before.
pub proof fn alt_up_goes_back(
    s: AppModel,
    key: Key,
    around: SurroundingsView,
    now: u64,
    p: Palette,
)
    requires
        only_composing(s, key),
        key.modifiers.alt,
        key.code == KeyCode::Up,
        0 < s.view.prompt_history.len() <= usize::MAX,
        s.view.history_pos matches Some(i) ==> i < s.view.prompt_history.len(),
    ensures
        ({
            let h = s.view.prompt_history;
            let (t, acts) = s.keyed(key, around, now, p);
            &&& acts == seq![ActionView::Complete]
            &&& t.view.prompt_history == h
            &&& s.view.history_pos is None ==> t.view.history_draft == s.view.composer
                && t.view.composer == h[h.len() - 1] && t.view.history_pos == Some(
                (h.len() - 1) as usize,
            )
            &&& s.view.history_pos matches Some(i) ==> t.view.history_draft
                == s.view.history_draft && if i > 0 {
                t.view.history_pos == Some((i - 1) as usize) && t.view.composer == h[i - 1]
            } else {
                t.view.history_pos == Some(0usize) && t.view.composer == h[0]
            }
        }),
{
    reveal(AppModel::showing);
    reveal(ViewModel::older);
    reveal(ViewModel::composing);
}

/// Going on through the prompts: each step shows the prompt after, and the one
/// past the newest the draft.
pub proof fn alt_down_goes_on(
    s: AppModel,
    key: Key,
    around: SurroundingsView,
    now: u64,
    p: Palette,
)
    requires
        only_composing(s, key),
        key.modifiers.alt,
        key.code == KeyCode::Down,
        s.view.prompt_history.len() <= usize::MAX,
    ensures
        s.view.history_pos is None ==> s.keyed(key, around, now, p).0.view == s.view,
        s.view.history_pos matches Some(i) ==> i < s.view.prompt_history.len() ==> {
            let h = s.view.prompt_history;
            let t = s.keyed(key, around, now, p).0;
            &&& i + 1 < h.len() ==> t.view.history_pos == Some((i + 1) as usize) && t.view.composer
                == h[i + 1]
            &&& i + 1 == h.len() ==> t.view.history_pos is None && t.view.composer
                == s.view.history_draft
        },
{
    reveal(AppModel::showing);
    reveal(ViewModel::newer);
    reveal(ViewModel::composing);
}

// ---- a held prompt ----------------------------------------------------------
/// A prompt that is held goes back in front of what is typed within a fiftieth of
/// a second, a line of its own; later than that it is sent.
pub proof fn a_held_prompt_waits_a_moment(s: AppModel, text: Seq<char>, staged: u64, now: u64)
    requires
        s.pending_submit == Some((text, staged)),
        staged <= now,
    ensures
        now - staged <= 20_000_000 ==> s.settled(now, true).0.view.composer == text.push('\n')
            + s.view.composer && s.settled(now, true).0.pending_submit is None && s.settled(
            now,
            true,
        ).1.len() == 0,
        now - staged > 20_000_000 ==> s.settled(now, true).1 == seq![ActionView::Submit(text)],
        s.settled(now, false).1 == seq![ActionView::Submit(text)],
        s.settled(now, false).0.view == s.view,
        s.settled(now, false).0.pending_submit is None,
{
    reveal(AppModel::settled);
}

// ---- a completion -----------------------------------------------------------
/// Only the completion is open, and the key does not end the session.
pub open spec fn only_choosing(s: AppModel, key: Key) -> bool {
    &&& s.view.menu_overlay is None
    &&& s.view.pending_ask is None
    &&& s.view.menu is Some
    &&& !(key.modifiers.control && key.code == KeyCode::Char('c'))
}

/// The keys at an open completion: Up and Down move the selection by one and stop
/// at the ends; Escape closes the completion and leaves the text; Tab takes the
/// selected candidate, and so does Enter for a file.
pub proof fn keys_at_a_completion(
    s: AppModel,
    key: Key,
    around: SurroundingsView,
    now: u64,
    p: Palette,
    m: ChoiceView,
)
    requires
        only_choosing(s, key),
        s.view.menu == Some(m),
        0 <= m.selected < m.completion.candidates.len(),
    ensures
        ({
            let (t, acts) = s.keyed(key, around, now, p);
            let n = m.completion.candidates.len() as int;
            &&& key.code == KeyCode::Up ==> acts.len() == 0 && t.view.composer == s.view.composer
                && t.view.menu is Some && t.view.menu->0.completion == m.completion
                && t.view.menu->0.selected == (if m.selected > 0 {
                m.selected - 1
            } else {
                0
            })
            &&& key.code == KeyCode::Down ==> acts.len() == 0 && t.view.composer == s.view.composer
                && t.view.menu is Some && t.view.menu->0.completion == m.completion
                && t.view.menu->0.selected == (if m.selected < n - 1 {
                m.selected + 1
            } else {
                n - 1
            })
            &&& key.code == KeyCode::Esc ==> acts.len() == 0 && t.view.menu is None
                && t.view.composer == s.view.composer && t.quit == s.quit && t.view.busy
                == s.view.busy
            &&& key.code == KeyCode::Tab ==> acts == seq![ActionView::Complete] && t.view.menu is None
                && (crate::complete::applied(s.view.composer, m.completion, m.selected) matches Some(x)
                ==> t.view.composer == x)
            &&& key.code == KeyCode::Enter && m.completion.kind == MenuKind::File ==> acts.len() == 0
                && t.view.menu is None && (crate::complete::applied(
                s.view.composer,
                m.completion,
                m.selected,
            ) matches Some(x) ==> t.view.composer == x)
        }),
{
    reveal(AppModel::showing);
    reveal(ViewModel::with_choice);
    reveal(ViewModel::accepting);
}

/// A completion that is offered anew keeps the selected candidate where the
/// candidates are the same, and starts at the first where they are not.
pub proof fn offering_keeps_the_selection(v: ViewModel, c: crate::complete::CompletionView, m: ChoiceView)
    requires
        v.menu == Some(m),
        0 <= m.selected,
        c.candidates.len() > 0,
    ensures
        v.offering(None).menu is None,
        v.offering(Some(c)).menu is Some,
        v.offering(Some(c)).menu->0.completion == c,
        m.completion.kind == c.kind && m.completion.candidates == c.candidates && m.selected
            < c.candidates.len() ==> v.offering(Some(c)).menu->0.selected == m.selected,
        m.completion.kind != c.kind || m.completion.candidates != c.candidates ==> v.offering(
            Some(c),
        ).menu->0.selected == 0,
        v.offering(Some(c)).composer == v.composer,
{
    reveal(ViewModel::offering);
}

// ---- the menu ---------------------------------------------------------------
/// The menu is open, and the key does not end the session.
pub open spec fn in_the_menu(s: AppModel, key: Key, m: MenuView) -> bool {
    &&& s.view.menu_overlay == Some(m)
    &&& !(key.modifiers.control && key.code == KeyCode::Char('c'))
}

/// The keys in the menu while nothing is edited: Escape and `q` close it, `r`
/// reads everything again.
pub proof fn keys_in_the_menu(
    s: AppModel,
    key: Key,
    around: SurroundingsView,
    now: u64,
    p: Palette,
    m: MenuView,
)
    requires
        in_the_menu(s, key, m),
        m.editing is None,
    ensures
        ({
            let (t, acts) = s.keyed(key, around, now, p);
            &&& key.code == KeyCode::Esc || key.code == KeyCode::Char('q') ==> t.view.menu_overlay is None
                && acts.len() == 0 && t.quit == s.quit
            &&& key.code == KeyCode::Char('r') ==> t.view.menu_overlay == Some(m) && acts == seq![
                ActionView::ReloadMenu,
            ]
            &&& key.code == KeyCode::Left && m.page is Root ==> t.view.menu_overlay is None
            &&& key.code == KeyCode::Left && m.page is Projects ==> t.view.menu_overlay is Some
                && t.view.menu_overlay->0.page is Root
            &&& key.code == KeyCode::Left && m.page is Sessions ==> t.view.menu_overlay is Some
                && t.view.menu_overlay->0.page is Projects
        }),
{
    reveal(AppModel::showing);
    reveal(ViewModel::with_menu);
}

/// Enter on a session resumes it, on a new session starts one in its directory,
/// on a project shows its sessions, on another page goes there, and on the last
/// row of the first page closes the menu.
pub proof fn enter_in_the_menu(
    s: AppModel,
    key: Key,
    around: SurroundingsView,
    now: u64,
    p: Palette,
    m: MenuView,
)
    requires
        in_the_menu(s, key, m),
        m.editing is None,
        key.code == KeyCode::Enter,
    ensures
        ({
            let (t, acts) = s.keyed(key, around, now, p);
            &&& m.current_row() matches Some(RowView::Session(path)) ==> t.quit && t.outcome == Some(
                OutcomeView::Resume(path),
            ) && acts == seq![ActionView::Quit]
            &&& m.current_row() matches Some(RowView::NewSession(dir)) ==> t.quit && t.outcome
                == Some(OutcomeView::NewIn(dir)) && acts == seq![ActionView::Quit]
            &&& m.current_row() matches Some(RowView::Project(dir)) ==> t.quit == s.quit
                && acts.len() == 0 && t.view.menu_overlay is Some && t.view.menu_overlay->0.page
                == PageView::Sessions(dir) && t.view.menu_overlay->0.selected == 0
            &&& m.current_row() matches Some(RowView::Goto(page)) ==> t.quit == s.quit && acts.len()
                == 0 && t.view.menu_overlay is Some && t.view.menu_overlay->0.page == page
                && t.view.menu_overlay->0.selected == 0
            &&& m.current_row() matches Some(RowView::Close) ==> t.quit == s.quit && acts.len() == 0
                && t.view.menu_overlay is None
            &&& m.current_row() matches Some(RowView::ChangeApiKey) ==> t.quit == s.quit
                && acts.len() == 0 && t.view.menu_overlay is Some
                && t.view.menu_overlay->0.editing_api_key && t.view.menu_overlay->0.editing
                == Some(Seq::<char>::empty())
        }),
{
    reveal(AppModel::showing);
    reveal(ViewModel::with_menu);
    reveal(AppModel::left_with);
}

/// Up and Down go to the row above and below, round at the ends; keys without a
/// meaning leave the menu as it is.
pub proof fn moving_in_the_menu(
    s: AppModel,
    key: Key,
    around: SurroundingsView,
    now: u64,
    p: Palette,
    m: MenuView,
)
    requires
        in_the_menu(s, key, m),
        m.editing is None,
        0 <= m.selected < m.rows().len(),
    ensures
        ({
            let (t, acts) = s.keyed(key, around, now, p);
            let n = m.rows().len() as int;
            let o = t.view.menu_overlay;
            &&& key.code == KeyCode::Down ==> acts.len() == 0 && o is Some && o->0.selected == (
            if m.selected + 1 < n {
                m.selected + 1
            } else {
                0
            })
            &&& key.code == KeyCode::Up ==> acts.len() == 0 && o is Some && o->0.selected == (
            if m.selected > 0 {
                m.selected - 1
            } else {
                n - 1
            })
            &&& key.code == KeyCode::Right && !(m.page is Settings) ==> t == s && acts.len() == 0
            &&& key.code == KeyCode::Tab ==> t == s && acts.len() == 0
            &&& key.code == KeyCode::Char('x') ==> t == s && acts.len() == 0
        }),
{
    reveal(AppModel::showing);
    reveal(ViewModel::with_menu);
    crate::display::steps_wrap_around(m);
}

/// In the settings Right takes the next value of a field and Left the one before,
/// a model's from the saved ones; where there is no other model, that is said. The
/// letter `d` forgets a model and does nothing to other fields.
pub proof fn keys_in_the_settings(
    s: AppModel,
    key: Key,
    around: SurroundingsView,
    now: u64,
    p: Palette,
    m: MenuView,
    v: Seq<char>,
)
    requires
        in_the_menu(s, key, m),
        m.editing is None,
        !m.editing_api_key,
        m.page == PageView::Settings,
        0 <= m.selected < m.settings.fields.len(),
    ensures
        ({
            let (t, acts) = s.keyed(key, around, now, p);
            let i = m.selected;
            let f = m.settings.fields[i];
            let model = f.kind == FieldKind::Model;
            let write = if model {
                WriteView::AddModel { field: i, value: v }
            } else {
                WriteView::Assign { field: i, value: v }
            };
            &&& key.code == KeyCode::Right && f.next == Some(v) ==> t == s && acts == seq![
                ActionView::Write(write),
            ]
            &&& key.code == KeyCode::Left && f.previous == Some(v) ==> t == s && acts == seq![
                ActionView::Write(write),
            ]
            &&& key.code == KeyCode::Right && f.next is None || key.code == KeyCode::Left
                && f.previous is None ==> {
                &&& acts.len() == 0
                &&& t.view.menu_overlay == Some(
                    if model {
                        MenuView {
                            status: Some("only one saved model — press ↵ to add another"@),
                            ..m
                        }
                    } else {
                        m
                    },
                )
            }
            &&& key.code == KeyCode::Char('d') && model ==> t == s && acts == seq![
                ActionView::Write(WriteView::RemoveModel { value: f.value }),
            ]
            &&& key.code == KeyCode::Char('d') && !model ==> t == s && acts.len() == 0
        }),
{
    reveal(AppModel::showing);
    reveal(ViewModel::with_menu);
    assert(m.current_field() == Some(m.selected));
}

/// Enter in an editor asks for what was typed to be written: the key as the key, a
/// model as one more model, any other text as the value of its field.
pub proof fn enter_in_an_editor(
    s: AppModel,
    key: Key,
    around: SurroundingsView,
    now: u64,
    p: Palette,
    m: MenuView,
    text: Seq<char>,
)
    requires
        in_the_menu(s, key, m),
        m.editing == Some(text),
        key.code == KeyCode::Enter,
    ensures
        ({
            let (t, acts) = s.keyed(key, around, now, p);
            &&& t == s
            &&& m.editing_api_key ==> acts == seq![
                ActionView::Write(WriteView::SaveKey { value: text }),
            ]
            &&& !m.editing_api_key && m.page == PageView::Settings && 0 <= m.selected
                < m.settings.fields.len() ==> {
                &&& m.settings.fields[m.selected].kind == FieldKind::Model ==> acts == seq![
                    ActionView::Write(WriteView::AddModel { field: m.selected, value: text }),
                ]
                &&& m.settings.fields[m.selected].kind != FieldKind::Model ==> acts == seq![
                    ActionView::Write(WriteView::Assign { field: m.selected, value: text }),
                ]
            }
        }),
{
    reveal(AppModel::showing);
    reveal(ViewModel::with_menu);
}

/// The keys in an editor of the menu: characters go to the end, Backspace takes
/// the last one back, Escape leaves without writing anything.
pub proof fn keys_in_an_editor(
    s: AppModel,
    key: Key,
    around: SurroundingsView,
    now: u64,
    p: Palette,
    m: MenuView,
    text: Seq<char>,
)
    requires
        in_the_menu(s, key, m),
        m.editing == Some(text),
    ensures
        ({
            let (t, acts) = s.keyed(key, around, now, p);
            &&& key.code matches KeyCode::Char(c) ==> acts.len() == 0 && t.view.menu_overlay is Some
                && t.view.menu_overlay->0.editing == Some(text.push(c))
            &&& key.code == KeyCode::Backspace && text.len() > 0 ==> acts.len() == 0
                && t.view.menu_overlay is Some && t.view.menu_overlay->0.editing == Some(
                text.take(text.len() - 1),
            )
            &&& key.code == KeyCode::Esc ==> acts.len() == 0 && t.view.menu_overlay is Some
                && t.view.menu_overlay->0.editing is None && !t.view.menu_overlay->0.editing_api_key
                && t.view.menu_overlay->0.settings == m.settings
            &&& key.code != KeyCode::Enter ==> acts.len() == 0
        }),
{
    reveal(AppModel::showing);
    reveal(ViewModel::with_menu);
    if text.len() > 0 {
        assert(text.drop_last() =~= text.take(text.len() - 1));
    }
}

// ---- a paste ----------------------------------------------------------------
/// A key can come from a paste where it is a character or Enter and nothing is held
/// down with it but shift.
pub proof fn which_keys_can_be_pasted(key: Key)
    ensures
        key.may_be_pasted() <==> !key.modifiers.control && !key.modifiers.alt
            && !key.modifiers.command && !key.modifiers.hyper && !key.modifiers.meta && (key.code
            is Char || key.code is Enter),
        key.ends() <==> key.modifiers.control && key.code == KeyCode::Char('c'),
{
}

/// A text without a carriage return is kept as it is; a carriage return becomes a
/// newline, alone or together with the newline behind it.
pub proof fn line_ends_become_newlines(a: Seq<char>, b: Seq<char>)
    requires
        forall|i: int| 0 <= i < a.len() ==> #[trigger] a[i] != '\r',
    ensures
        with_newlines(a) == a,
        with_newlines(a + seq!['\r', '\n'] + b) == a + seq!['\n'] + with_newlines(b),
        b.len() == 0 || b[0] != '\n' ==> with_newlines(a + seq!['\r'] + b) == a + seq!['\n']
            + with_newlines(b),
    decreases a.len(),
{
    let e = Seq::<char>::empty();
    if a.len() == 0 {
        let x = seq!['\r', '\n'] + b;
        let y = seq!['\r'] + b;
        assert(a + seq!['\r', '\n'] + b =~= x);
        assert(a + seq!['\r'] + b =~= y);
        assert(x.skip(2) =~= b);
        assert(y.skip(1) =~= b);
        if b.len() > 0 {
            assert(y[1] == b[0]);
        }
        assert(a + seq!['\n'] + with_newlines(b) =~= seq!['\n'] + with_newlines(b));
    } else {
        let t = a.skip(1);
        assert(a[0] != '\r');
        assert forall|i: int| 0 <= i < t.len() implies #[trigger] t[i] != '\r' by {
            assert(t[i] == a[i + 1]);
        }
        line_ends_become_newlines(t, b);
        assert(seq![a[0]] + t =~= a);
        let x = a + seq!['\r', '\n'] + b;
        let y = a + seq!['\r'] + b;
        assert(x.skip(1) =~= t + seq!['\r', '\n'] + b);
        assert(y.skip(1) =~= t + seq!['\r'] + b);
        let end = seq!['\n'] + with_newlines(b);
        assert(seq![a[0]] + (t + seq!['\n'] + with_newlines(b)) =~= a + seq!['\n']
            + with_newlines(b));
    }
}

/// A paste goes behind what is composed. One of several lines is marked from where
/// it starts to where it ends, with how many they are.
pub proof fn a_paste_goes_to_the_composer(s: AppModel, text: Seq<char>, now: u64, p: Palette)
    requires
        s.view.menu_overlay is None,
        s.view.pending_ask is None,
        text.len() > 0,
        forall|i: int| 0 <= i < text.len() ==> #[trigger] text[i] != '\r',
    ensures
        ({
            let (t, acts) = s.after_paste(text, now, p);
            let n = split(text, '\n').len();
            &&& acts == seq![ActionView::Complete]
            &&& t.view.composer == s.view.composer + text
            &&& t.view.history_pos is None
            &&& t.view.last_input == Some(now)
            &&& t.view.transcript == s.view.transcript
            &&& n <= 1 ==> t.view.paste_markers == s.view.paste_markers
            &&& n > 1 ==> t.view.paste_markers == s.view.paste_markers.push(
                PasteMarker {
                    start: byte_len(s.view.composer) as usize,
                    end: byte_len(s.view.composer + text) as usize,
                    lines: n as usize,
                },
            )
        }),
{
    reveal(AppModel::after_paste);
    reveal(ViewModel::pasted);
    reveal(ViewModel::paste_noted);
    line_ends_become_newlines(text, Seq::empty());
}

/// An open editor takes a paste as it is. A menu without one closes and says so; a
/// question stays and says that it waits.
pub proof fn a_paste_while_something_is_open(s: AppModel, text: Seq<char>, now: u64, p: Palette)
    requires
        text.len() > 0,
        forall|i: int| 0 <= i < text.len() ==> #[trigger] text[i] != '\r',
    ensures
        ({
            let (t, acts) = s.after_paste(text, now, p);
            let m = s.view.menu_overlay;
            &&& m is Some && m->0.editing is Some ==> {
                &&& acts.len() == 0
                &&& t.view.composer == s.view.composer
                &&& t.view.menu_overlay is Some
                &&& t.view.menu_overlay->0.editing == Some(m->0.editing->0 + text)
                &&& t.view.transcript == s.view.transcript
            }
            &&& m is Some && m->0.editing is None && s.view.pending_ask is None ==> {
                &&& t.view.menu_overlay is None
                &&& t.view.composer == s.view.composer + text
                &&& t.view.transcript == s.view.transcript.push(
                    LineView {
                        spans: seq![raw("· paste saved in the composer; menu closed"@)],
                        style: p.chrome(),
                    },
                )
            }
            &&& m is None && s.view.pending_ask is Some ==> {
                &&& t.view.pending_ask == s.view.pending_ask
                &&& t.view.composer == s.view.composer + text
                &&& t.view.transcript == s.view.transcript.push(
                    LineView {
                        spans: seq![
                            raw(
                                "· paste saved in the composer; answer the permission prompt to continue"@,
                            ),
                        ],
                        style: p.chrome(),
                    },
                )
            }
        }),
{
    reveal(AppModel::after_paste);
    reveal(ViewModel::pasted);
    reveal(ViewModel::paste_noted);
    line_ends_become_newlines(text, Seq::empty());
}

} // verus!
