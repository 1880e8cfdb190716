//! What every key does, in the menu, to a question, to the completion and in the
//! composer.
use crate::app::{
    action_views,
    and_action,
    no_actions,
    one_action,
    Action,
    ActionView,
    App,
    AppModel,
    AskResponse,
    ResponseView,
};
use crate::complete::{
    applied,
    apply,
    complete,
    completes,
    completion_option,
    Completion,
    CompletionView,
    DirEntry,
    MenuKind,
};
use crate::input::{
    alike,
    browse_history,
    browsed,
    classify_slash,
    delete_last_word,
    esc_action,
    goes_on,
    is_quit_word,
    quits,
    resolve_staged_submit,
    same_menu,
    slash,
    without_last_word,
    EscAction,
    PendingSubmit,
    PASTE_RESCUE_WINDOW,
};
use crate::menu::{
    listing,
    session_views,
    write_view,
    FieldKind,
    MenuPage,
    MenuState,
    MenuView,
    Outcome,
    OutcomeView,
    PageView,
    Row,
    RowView,
    SessionInfo,
    Settings,
    SettingsWrite,
    WriteView,
};
use crate::report::{rule_for, suggested_rule};
use crate::screen::{least, most};
use crate::slash::{Surroundings, SurroundingsView};
use crate::text::{decimal, number, strings, text_option};
use crate::theme::Palette;
use crate::view::{
    ask_option,
    choice_option,
    since,
    with_newlines,
    AskView,
    ChoiceView,
    CompletionMenu,
    PasteMarker,
    PendingAsk,
    ViewModel,
    ViewState,
};
use vstd::prelude::*;
use vstd::string::*;

verus! {

// ---- keys -------------------------------------------------------------------
/// A key.
#[derive(Debug, Clone, Copy, PartialEq, Eq, Structural)]
pub enum KeyCode {
    Enter,
    Esc,
    Tab,
    BackTab,
    Backspace,
    PageUp,
    PageDown,
    Up,
    Down,
    Left,
    Right,
    Home,
    End,
    Char(char),
    Other,
}

/// The modifier keys held with it.
#[derive(Debug, Clone, Copy, PartialEq, Eq, Structural)]
pub struct Modifiers {
    pub shift: bool,
    pub control: bool,
    pub alt: bool,
    pub command: bool,
    pub hyper: bool,
    pub meta: bool,
}

/// A key press.
#[derive(Debug, Clone, Copy, PartialEq, Eq, Structural)]
pub struct Key {
    pub code: KeyCode,
    pub modifiers: Modifiers,
}

impl Key {
    /// Such a key can be part of a paste that came as single keys.
    pub open spec fn may_be_pasted(self) -> bool {
        let m = self.modifiers;
        !m.control && !m.alt && !m.command && !m.hyper && !m.meta && (self.code is Char
            || self.code is Enter)
    }

    /// The key that always ends the session.
    pub open spec fn ends(self) -> bool {
        self.modifiers.control && self.code == KeyCode::Char('c')
    }

    fn can_be_pasted(self) -> (r: bool)
        ensures
            r == self.may_be_pasted(),
    {
        let m: Modifiers = self.modifiers;
        if m.control || m.alt || m.command || m.hyper || m.meta {
            return false;
        }
        match self.code {
            KeyCode::Char(_) => true,
            KeyCode::Enter => true,
            _ => false,
        }
    }
}

// ---- prompts on their way ---------------------------------------------------
impl AppModel {
    /// A held prompt settled: folded back into the composer where the input
    /// goes on with it, else offered to the runtime.
    #[verifier::opaque]
    pub open spec fn settled(self, now: u64, continuation: bool) -> (AppModel, Seq<ActionView>) {
        match self.pending_submit {
            None => (self, Seq::empty()),
            Some((text, staged)) => if goes_on(staged, now, continuation) {
                (
                    AppModel {
                        view: ViewModel {
                            composer: text.push('\n') + self.view.composer,
                            ..self.view
                        },
                        pending_submit: None,
                        ..self
                    },
                    Seq::empty(),
                )
            } else {
                (AppModel { pending_submit: None, ..self }, seq![ActionView::Submit(text)])
            },
        }
    }

    /// The session left, with something for the host to do.
    #[verifier::opaque]
    pub open spec fn left_with(self, o: OutcomeView) -> AppModel {
        AppModel { outcome: Some(o), quit: true, ..self }
    }

    /// The queued prompt is to start after the calls in flight.
    #[verifier::opaque]
    pub open spec fn armed(self, p: Palette) -> AppModel {
        AppModel {
            view: ViewModel { queued_after_tool: true, ..self.view }.remarked(
                "· queued message will send after the current tool call"@,
                p,
            ).at_bottom(),
            send_queued_after_tool: true,
            ..self
        }
    }

    /// The running turn is to be cancelled.
    #[verifier::opaque]
    pub open spec fn cancelled(self) -> AppModel {
        AppModel {
            view: ViewModel { queued_after_tool: false, ..self.view },
            send_queued_after_tool: false,
            ..self
        }
    }

    /// A prompt of the runtime's queue, and what says so.
    #[verifier::opaque]
    pub open spec fn queued(self, text: Seq<char>, p: Palette) -> AppModel {
        let n = self.queued_prompts.len() + 1;
        AppModel {
            view: ViewModel {
                composer: Seq::empty(),
                paste_markers: Seq::empty(),
                history_pos: None,
                history_draft: Seq::empty(),
                queued_messages: n as int,
                ..self.view
            }.remarked(
                "· queued "@ + decimal(n) + (if n == 1 {
                    " message"@
                } else {
                    " messages"@
                }) + " — Esc sends after the next tool call"@,
                p,
            ).at_bottom(),
            queued_prompts: self.queued_prompts.push(text),
            ..self
        }
    }
}

impl App {
    /// Settle a held prompt.
    fn settle(&mut self, now: u64, continuation: bool) -> (r: Vec<Action>)
        ensures
            (final(self)@, action_views(r@)) == old(self)@.settled(now, continuation),
    {
        proof {
            reveal(AppModel::settled);
        }
        match resolve_staged_submit(
            &mut self.pending_submit,
            &mut self.view.composer,
            now,
            continuation,
        ) {
            Some(prompt) => one_action(Action::Submit(prompt)),
            None => no_actions(),
        }
    }

    /// Dispatch a held prompt once nothing can follow it.
    pub fn flush_pending_submit_if_due(&mut self, now: u64) -> (r: Vec<Action>)
        ensures
            ({
                let due = match old(self)@.pending_submit {
                    Some((_, staged)) => since(Some(staged), now) >= PASTE_RESCUE_WINDOW,
                    None => false,
                };
                (final(self)@, action_views(r@)) == if due {
                    old(self)@.settled(now, false)
                } else {
                    (old(self)@, Seq::empty())
                }
            }),
    {
        let due: bool = match &self.pending_submit {
            Some(s) => now.saturating_sub(s.staged) >= PASTE_RESCUE_WINDOW,
            None => false,
        };
        if due {
            self.settle(now, false)
        } else {
            no_actions()
        }
    }

    /// The runtime took a prompt: echo it and mark the turn as running.
    pub fn submit_accepted(&mut self, text: String, now: u64, p: Palette) -> (r: Vec<Action>)
        ensures
            final(self)@ == (AppModel {
                view: old(self)@.view.prompted(text@, p).begun(now),
                ..old(self)@
            }),
            action_views(r@) == seq![ActionView::Remember(text@)],
    {
        self.view.record_prompt(text.as_str(), p);
        self.view.begin_turn_display(now);
        one_action(Action::Remember(text))
    }

    /// The runtime took a prompt into its queue.
    pub fn queue_accepted(&mut self, text: String, p: Palette) -> (r: Vec<Action>)
        ensures
            final(self)@ == old(self)@.queued(text@, p),
            action_views(r@) == seq![ActionView::Complete],
    {
        proof {
            reveal(AppModel::queued);
        }
        let ghost before = strings(self.queued_prompts@);
        let ghost tv = text@;
        self.view.composer = String::new();
        self.view.clear_paste_markers();
        self.view.history_pos = None;
        self.view.history_draft = String::new();
        assert(self.view.composer@ =~= Seq::<char>::empty());
        assert(self.view.history_draft@ =~= Seq::<char>::empty());
        self.queued_prompts.push(text);
        assert(strings(self.queued_prompts@) =~= before.push(tv));
        let n: usize = self.queued_prompts.len();
        self.view.queued_messages = n;
        let noun: &'static str = if n == 1 {
            " message"
        } else {
            " messages"
        };
        let t: String = "· queued ".to_owned().concat(number(n as u64).as_str()).concat(
            noun,
        ).concat(" — Esc sends after the next tool call");
        self.view.remark(t.as_str(), p);
        self.view.jump_to_bottom();
        one_action(Action::Complete)
    }

    fn arm_queued_after_tool(&mut self, p: Palette)
        ensures
            final(self)@ == old(self)@.armed(p),
    {
        proof {
            reveal(AppModel::armed);
        }
        self.send_queued_after_tool = true;
        self.view.queued_after_tool = true;
        self.view.remark("· queued message will send after the current tool call", p);
        self.view.jump_to_bottom();
    }

    fn cancel_active_turn(&mut self) -> (r: Vec<Action>)
        ensures
            final(self)@ == old(self)@.cancelled(),
            action_views(r@) == seq![ActionView::Cancel],
    {
        proof {
            reveal(AppModel::cancelled);
        }
        self.send_queued_after_tool = false;
        self.view.queued_after_tool = false;
        one_action(Action::Cancel)
    }

    /// Leave the session, with something for the host to do.
    pub fn leave_with(&mut self, outcome: Outcome) -> (r: Vec<Action>)
        ensures
            final(self)@ == old(self)@.left_with(outcome@),
            action_views(r@) == seq![ActionView::Quit],
    {
        proof {
            reveal(AppModel::left_with);
        }
        self.outcome = Some(outcome);
        self.quit = true;
        one_action(Action::Quit)
    }
}

// ---- the completion ---------------------------------------------------------
impl ViewModel {
    /// A completion offered. The selection stays where the candidates do, else
    /// it starts at the top.
    #[verifier::opaque]
    pub open spec fn offering(self, c: Option<CompletionView>) -> ViewModel {
        ViewModel {
            menu: match c {
                None => None,
                Some(c) => Some(
                    ChoiceView {
                        completion: c,
                        selected: least(
                            match self.menu {
                                Some(m) => if alike(m.completion, c) {
                                    m.selected
                                } else {
                                    0
                                },
                                None => 0,
                            },
                            most(c.candidates.len() - 1, 0),
                        ),
                    },
                ),
            },
            ..self
        }
    }

    /// The selected candidate taken into the composer, the menu closed.
    #[verifier::opaque]
    pub open spec fn accepting(self, m: ChoiceView) -> ViewModel {
        match applied(self.composer, m.completion, m.selected) {
            Some(t) => ViewModel {
                composer: t,
                paste_markers: Seq::empty(),
                menu: None,
                ..self
            },
            None => ViewModel { menu: None, ..self },
        }
    }

    /// What a key does to an open completion, and what is to be done. With
    /// nothing to be done named, the key goes on to the composer.
    pub open spec fn choosing(self, m: ChoiceView, code: KeyCode) -> (
        ViewModel,
        Option<Seq<ActionView>>,
    ) {
        match code {
            KeyCode::Tab => (self.accepting(m), Some(seq![ActionView::Complete])),
            KeyCode::Enter => (
                self.accepting(m),
                if m.completion.kind == MenuKind::Slash {
                    None
                } else {
                    Some(Seq::empty())
                },
            ),
            KeyCode::Esc => (self.with_choice(None), Some(Seq::empty())),
            KeyCode::Up => (
                self.with_choice(Some(ChoiceView { selected: most(m.selected - 1, 0), ..m })),
                Some(Seq::empty()),
            ),
            KeyCode::Down => (
                self.with_choice(
                    Some(
                        ChoiceView {
                            selected: least(
                                m.selected + 1,
                                most(m.completion.candidates.len() - 1, 0),
                            ),
                            ..m
                        },
                    ),
                ),
                Some(Seq::empty()),
            ),
            _ => (self.with_choice(None), None),
        }
    }

    /// The completion that shows.
    #[verifier::opaque]
    pub open spec fn with_choice(self, m: Option<ChoiceView>) -> ViewModel {
        ViewModel { menu: m, ..self }
    }
}

impl ViewState {
    fn choose_completion(&mut self, m: Option<CompletionMenu>)
        ensures
            final(self)@ == old(self)@.with_choice(choice_option(m)),
    {
        proof {
            reveal(ViewModel::with_choice);
        }
        self.menu = m;
    }

    /// Offer a completion.
    pub fn offer(&mut self, c: Option<Completion>)
        ensures
            final(self)@ == old(self)@.offering(completion_option(c)),
    {
        proof {
            reveal(ViewModel::offering);
        }
        let before: Option<CompletionMenu> = self.menu.take();
        match c {
            None => {},
            Some(completion) => {
                let kept: usize = match &before {
                    Some(m) => if same_menu(&m.completion, &completion) {
                        m.selected
                    } else {
                        0
                    },
                    None => 0,
                };
                let n: usize = completion.candidates.len();
                assert(completion@.candidates.len() == n);
                let last: usize = n.saturating_sub(1);
                let selected: usize = if kept < last {
                    kept
                } else {
                    last
                };
                self.menu = Some(CompletionMenu { completion, selected });
            },
        }
    }

    fn accept(&mut self, m: &CompletionMenu)
        ensures
            final(self)@ == old(self)@.accepting(m@),
    {
        proof {
            reveal(ViewModel::accepting);
        }
        let taken: Option<String> = apply(self.composer.as_str(), &m.completion, m.selected);
        self.menu = None;
        match taken {
            Some(t) => {
                self.clear_paste_markers();
                self.composer = t;
            },
            None => {},
        }
    }

    /// Do what a key asks of an open completion.
    fn choose_key(&mut self, m: CompletionMenu, code: KeyCode) -> (r: Option<Vec<Action>>)
        ensures
            final(self)@ == old(self)@.choosing(m@, code).0,
            match r {
                Some(v) => old(self)@.choosing(m@, code).1 == Some(action_views(v@)),
                None => old(self)@.choosing(m@, code).1 is None,
            },
    {
        match code {
            KeyCode::Tab => {
                self.accept(&m);
                Some(one_action(Action::Complete))
            },
            KeyCode::Enter => {
                self.accept(&m);
                match m.completion.kind {
                    MenuKind::Slash => None,
                    MenuKind::File => Some(no_actions()),
                }
            },
            KeyCode::Esc => {
                self.choose_completion(None);
                Some(no_actions())
            },
            KeyCode::Up => {
                let selected: usize = m.selected.saturating_sub(1);
                self.choose_completion(Some(CompletionMenu { selected, ..m }));
                Some(no_actions())
            },
            KeyCode::Down => {
                let n: usize = m.completion.candidates.len();
                assert(m@.completion.candidates.len() == n);
                let last: usize = n.saturating_sub(1);
                let selected: usize = if m.selected < last {
                    m.selected + 1
                } else {
                    last
                };
                self.choose_completion(Some(CompletionMenu { selected, ..m }));
                Some(no_actions())
            },
            _ => {
                self.choose_completion(None);
                None
            },
        }
    }
}

impl App {
    /// Recompute the completion, over the listing of the directory that the
    /// composer mentions.
    pub fn refresh_menu(&mut self, entries: &[DirEntry])
        ensures
            exists|c: Option<CompletionView>|
                #[trigger] completes(old(self)@.view.composer, entries@, c) && final(self)@ == (
                AppModel { view: old(self)@.view.offering(c), ..old(self)@ }),
    {
        let c: Option<Completion> = complete(self.view.composer.as_str(), entries);
        let ghost cv = completion_option(c);
        self.view.offer(c);
        assert(completes(old(self)@.view.composer, entries@, cv));
    }
}

// ---- the composer -----------------------------------------------------------
impl ViewModel {
    /// The composer holding another text, typed just now.
    #[verifier::opaque]
    pub open spec fn composing(self, text: Seq<char>, now: u64) -> ViewModel {
        ViewModel { composer: text, paste_markers: Seq::empty(), last_input: Some(now), ..self }
    }

    /// The composer with one more character.
    #[verifier::opaque]
    pub open spec fn typed(self, c: char, now: u64) -> ViewModel {
        ViewModel { composer: self.composer.push(c), last_input: Some(now), ..self }
    }

    /// Back from the history to the draft.
    #[verifier::opaque]
    pub open spec fn drafting(self, now: u64) -> ViewModel {
        ViewModel {
            history_pos: None,
            history_draft: Seq::empty(),
            ..self.composing(self.history_draft, now)
        }
    }

    /// One step towards older prompts.
    #[verifier::opaque]
    pub open spec fn older(self, now: u64) -> ViewModel {
        let entering = self.history_pos is None;
        let (pos, text) = browsed(
            self.prompt_history,
            self.history_pos,
            if entering {
                self.composer
            } else {
                self.history_draft
            },
            true,
        );
        ViewModel {
            history_draft: if entering && pos is Some {
                self.composer
            } else {
                self.history_draft
            },
            history_pos: pos,
            ..self.composing(text, now)
        }
    }

    /// One step towards newer prompts, past which the draft is.
    #[verifier::opaque]
    pub open spec fn newer(self, now: u64) -> ViewModel {
        let (pos, text) = browsed(
            self.prompt_history,
            self.history_pos,
            self.history_draft,
            false,
        );
        ViewModel { history_pos: pos, ..self.composing(text, now) }
    }

    /// The composer emptied.
    #[verifier::opaque]
    pub open spec fn emptied(self) -> ViewModel {
        ViewModel { composer: Seq::empty(), paste_markers: Seq::empty(), ..self }
    }

    /// The view at the top.
    #[verifier::opaque]
    pub open spec fn at_start(self) -> ViewModel {
        self.held_at(0)
    }

    /// What a key that edits the composer or scrolls does; `None` is a key that
    /// does neither. The flag says that the completion is to be recomputed.
    pub open spec fn edited(self, key: Key, now: u64) -> Option<(ViewModel, bool)> {
        let m = key.modifiers;
        match key.code {
            KeyCode::PageUp => Some((self.lines_up(self.height()), false)),
            KeyCode::PageDown => Some((self.lines_down(self.height()), false)),
            KeyCode::Up => if m.alt {
                Some((self.older(now), true))
            } else {
                Some((self.lines_up(1), false))
            },
            KeyCode::Down => if m.alt {
                if self.history_pos is None {
                    Some((self, false))
                } else {
                    Some((self.newer(now), true))
                }
            } else {
                Some((self.lines_down(1), false))
            },
            KeyCode::Home => Some((self.at_start(), false)),
            KeyCode::End => Some((self.at_bottom(), false)),
            KeyCode::Char(c) => if !m.control {
                Some((self.typed(c, now), true))
            } else if c == 'w' || c == 'W' {
                Some((self.composing(without_last_word(self.composer), now), true))
            } else if c == 'u' || c == 'U' {
                Some((self.composing(Seq::empty(), now), true))
            } else {
                None
            },
            KeyCode::Backspace => Some(
                (
                    self.composing(
                        if m.command || m.meta {
                            Seq::empty()
                        } else if m.alt {
                            without_last_word(self.composer)
                        } else if self.composer.len() > 0 {
                            self.composer.drop_last()
                        } else {
                            self.composer
                        },
                        now,
                    ),
                    true,
                ),
            ),
            _ => None,
        }
    }
}

impl ViewState {
    fn compose(&mut self, text: String, now: u64)
        ensures
            final(self)@ == old(self)@.composing(text@, now),
    {
        proof {
            reveal(ViewModel::composing);
        }
        self.clear_paste_markers();
        self.composer = text;
        self.last_input = Some(now);
    }

    fn type_char(&mut self, c: char, now: u64)
        ensures
            final(self)@ == old(self)@.typed(c, now),
    {
        proof {
            reveal(ViewModel::typed);
        }
        self.composer.push(c);
        self.last_input = Some(now);
    }

    fn restore_draft(&mut self, now: u64)
        ensures
            final(self)@ == old(self)@.drafting(now),
    {
        proof {
            reveal(ViewModel::drafting);
            reveal(ViewModel::composing);
        }
        let draft: String = self.history_draft.clone();
        self.compose(draft, now);
        self.history_pos = None;
        self.history_draft = String::new();
        assert(self.history_draft@ =~= Seq::<char>::empty());
    }

    fn history_prev(&mut self, now: u64)
        ensures
            final(self)@ == old(self)@.older(now),
    {
        proof {
            reveal(ViewModel::older);
            reveal(ViewModel::composing);
        }
        let entering: bool = self.history_pos.is_none();
        let draft: String = if entering {
            self.composer.clone()
        } else {
            self.history_draft.clone()
        };
        let (pos, text): (Option<usize>, String) = browse_history(
            self.prompt_history.as_slice(),
            self.history_pos,
            draft.as_str(),
            true,
        );
        self.compose(text, now);
        if entering && pos.is_some() {
            self.history_draft = draft;
        }
        self.history_pos = pos;
    }

    fn history_next(&mut self, now: u64)
        ensures
            final(self)@ == old(self)@.newer(now),
    {
        proof {
            reveal(ViewModel::newer);
            reveal(ViewModel::composing);
        }
        let (pos, text): (Option<usize>, String) = browse_history(
            self.prompt_history.as_slice(),
            self.history_pos,
            self.history_draft.as_str(),
            false,
        );
        self.compose(text, now);
        self.history_pos = pos;
    }

    fn empty_composer(&mut self)
        ensures
            final(self)@ == old(self)@.emptied(),
    {
        proof {
            reveal(ViewModel::emptied);
        }
        self.clear_paste_markers();
        self.composer = String::new();
        assert(self.composer@ =~= Seq::<char>::empty());
    }

    fn clear_composer_line(&mut self, now: u64)
        ensures
            final(self)@ == old(self)@.composing(Seq::empty(), now),
    {
        let none: String = String::new();
        assert(none@ =~= Seq::<char>::empty());
        self.compose(none, now);
    }

    fn delete_word(&mut self, now: u64)
        ensures
            final(self)@ == old(self)@.composing(without_last_word(old(self)@.composer), now),
    {
        let mut text: String = self.composer.clone();
        delete_last_word(&mut text);
        self.compose(text, now);
    }

    fn delete_char(&mut self, now: u64)
        ensures
            final(self)@ == old(self)@.composing(
                if old(self)@.composer.len() > 0 {
                    old(self)@.composer.drop_last()
                } else {
                    old(self)@.composer
                },
                now,
            ),
    {
        let n: usize = self.composer.as_str().unicode_len();
        let text: String = if n > 0 {
            self.composer.as_str().substring_char(0, n - 1).to_owned()
        } else {
            self.composer.clone()
        };
        assert(n > 0 ==> text@ =~= self.composer@.drop_last());
        self.compose(text, now);
    }

    fn go_to_start(&mut self)
        ensures
            final(self)@ == old(self)@.at_start(),
    {
        proof {
            reveal(ViewModel::at_start);
        }
        self.follow = false;
        self.scroll_top = 0;
    }

    /// Scroll, or walk the history, as a key asks.
    fn movement_key(&mut self, key: Key, now: u64) -> (r: Option<bool>)
        requires
            !(key.code is Char || key.code is Backspace),
        ensures
            match old(self)@.edited(key, now) {
                Some((m, again)) => final(self)@ == m && r == Some(again),
                None => final(self)@ == old(self)@ && r is None,
            },
    {
        match key.code {
            KeyCode::PageUp => self.scroll_page_up(),
            KeyCode::PageDown => self.scroll_page_down(),
            KeyCode::Up => {
                if key.modifiers.alt {
                    self.history_prev(now);
                    return Some(true);
                }
                self.scroll_line_up();
            },
            KeyCode::Down => {
                if key.modifiers.alt {
                    if self.history_pos.is_some() {
                        self.history_next(now);
                        return Some(true);
                    }
                } else {
                    self.scroll_line_down();
                }
            },
            KeyCode::Home => self.go_to_start(),
            KeyCode::End => self.jump_to_bottom(),
            _ => {
                return None;
            },
        }
        Some(false)
    }

    /// Edit the composer, scroll, or walk the history, as a key asks.
    fn edit_key(&mut self, key: Key, now: u64) -> (r: Option<bool>)
        ensures
            match old(self)@.edited(key, now) {
                Some((m, again)) => final(self)@ == m && r == Some(again),
                None => final(self)@ == old(self)@ && r is None,
            },
    {
        match key.code {
            KeyCode::Char(c) => {
                if !key.modifiers.control {
                    self.type_char(c, now);
                } else if c == 'w' || c == 'W' {
                    self.delete_word(now);
                } else if c == 'u' || c == 'U' {
                    self.clear_composer_line(now);
                } else {
                    return None;
                }
                Some(true)
            },
            KeyCode::Backspace => {
                if key.modifiers.command || key.modifiers.meta {
                    self.clear_composer_line(now);
                } else if key.modifiers.alt {
                    self.delete_word(now);
                } else {
                    self.delete_char(now);
                }
                Some(true)
            },
            _ => self.movement_key(key, now),
        }
    }
}

// ---- a question -------------------------------------------------------------
impl AppModel {
    /// What a key answers to a question, if it answers.
    pub open spec fn answer_to(ask: AskView, code: KeyCode) -> Option<ResponseView> {
        match code {
            KeyCode::Char(c) => if c == 'y' || c == 'Y' {
                Some(ResponseView::Once)
            } else if c == 's' || c == 'S' {
                Some(ResponseView::Session(rule_for(ask.tool, ask.command)))
            } else if c == 'a' || c == 'A' {
                Some(ResponseView::Always(rule_for(ask.tool, ask.command)))
            } else if c == 'n' || c == 'N' {
                Some(ResponseView::Deny("declined"@))
            } else {
                None
            },
            _ => None,
        }
    }

    /// No question open.
    #[verifier::opaque]
    pub open spec fn unasked(self) -> AppModel {
        AppModel { view: ViewModel { pending_ask: None, ..self.view }, ..self }
    }

    /// What a key does while a question is open. Any key that does not answer
    /// it leaves it open.
    pub open spec fn asked_key(self, ask: AskView, code: KeyCode, p: Palette) -> (
        AppModel,
        Seq<ActionView>,
    ) {
        if code == KeyCode::Esc {
            match self.view.escape() {
                EscAction::QueueAfterTool => (
                    self.unasked().armed(p),
                    seq![
                        ActionView::Answer {
                            id: ask.id,
                            response: ResponseView::Deny("declined"@),
                        },
                    ],
                ),
                EscAction::Cancel => (self.unasked().cancelled(), seq![ActionView::Cancel]),
                _ => (self, Seq::empty()),
            }
        } else {
            match Self::answer_to(ask, code) {
                Some(response) => (
                    self.unasked(),
                    seq![ActionView::Answer { id: ask.id, response }],
                ),
                None => (self, Seq::empty()),
            }
        }
    }
}

/// What a key answers to a question.
fn answer_of(ask: &PendingAsk, code: KeyCode) -> (r: Option<AskResponse>)
    ensures
        match r {
            Some(a) => AppModel::answer_to(ask@, code) == Some(a@),
            None => AppModel::answer_to(ask@, code) is None,
        },
{
    match code {
        KeyCode::Char(c) => if c == 'y' || c == 'Y' {
            Some(AskResponse::Once)
        } else if c == 's' || c == 'S' {
            Some(AskResponse::Session(suggested_rule(ask.tool.as_str(), &ask.command)))
        } else if c == 'a' || c == 'A' {
            Some(AskResponse::Always(suggested_rule(ask.tool.as_str(), &ask.command)))
        } else if c == 'n' || c == 'N' {
            Some(AskResponse::Deny("declined".to_owned()))
        } else {
            None
        },
        _ => None,
    }
}

impl App {
    fn close_ask(&mut self) -> (r: Option<PendingAsk>)
        ensures
            final(self)@ == old(self)@.unasked(),
            ask_option(r) == old(self)@.view.pending_ask,
    {
        proof {
            reveal(AppModel::unasked);
        }
        self.view.pending_ask.take()
    }

    /// Do what a key asks while a question is open.
    fn ask_key(&mut self, code: KeyCode, p: Palette) -> (r: Vec<Action>)
        requires
            old(self)@.view.pending_ask is Some,
        ensures
            (final(self)@, action_views(r@)) == old(self)@.asked_key(
                old(self)@.view.pending_ask->0,
                code,
                p,
            ),
    {
        if code == KeyCode::Esc {
            return match esc_action(&self.view) {
                EscAction::QueueAfterTool => {
                    match self.close_ask() {
                        Some(ask) => {
                            self.arm_queued_after_tool(p);
                            one_action(
                                Action::Answer {
                                    id: ask.id,
                                    response: AskResponse::Deny("declined".to_owned()),
                                },
                            )
                        },
                        None => no_actions(),
                    }
                },
                EscAction::Cancel => {
                    let _ask: Option<PendingAsk> = self.close_ask();
                    self.cancel_active_turn()
                },
                _ => no_actions(),
            };
        }
        let answer: Option<AskResponse> = match &self.view.pending_ask {
            Some(ask) => answer_of(ask, code),
            None => None,
        };
        match answer {
            Some(response) => match self.close_ask() {
                Some(ask) => one_action(Action::Answer { id: ask.id, response }),
                None => no_actions(),
            },
            None => no_actions(),
        }
    }
}

// ---- the composer's own keys ------------------------------------------------
impl AppModel {
    /// The session ended.
    #[verifier::opaque]
    pub open spec fn quitting(self) -> AppModel {
        AppModel { quit: true, ..self }
    }

    /// A prompt held back a moment.
    #[verifier::opaque]
    pub open spec fn holding(self, text: Seq<char>, now: u64) -> AppModel {
        AppModel { pending_submit: Some((text, now)), ..self }
    }

    /// Another view.
    #[verifier::opaque]
    pub open spec fn showing(self, view: ViewModel) -> AppModel {
        AppModel { view, ..self }
    }

    /// What a text that was entered does, before anything else.
    pub open spec fn taken(
        self,
        text: Seq<char>,
        around: SurroundingsView,
        now: u64,
        p: Palette,
    ) -> (AppModel, Seq<ActionView>) {
        if quits(text) {
            (self.quitting(), seq![ActionView::Quit])
        } else {
            match slash(text) {
                Some(a) => self.slashed(a, around, p),
                None => (self.holding(text, now), Seq::empty()),
            }
        }
    }

    /// The composer's text entered: a word that quits, a command, or a prompt.
    #[verifier::opaque]
    pub open spec fn entered(self, around: SurroundingsView, now: u64, p: Palette) -> (
        AppModel,
        Seq<ActionView>,
    ) {
        let (s, acts) = self.showing(self.view.emptied()).taken(
            self.view.composer,
            around,
            now,
            p,
        );
        (s.showing(s.view.at_bottom()), acts.push(ActionView::Complete))
    }

    /// A draft kept while a turn runs, and what says so.
    #[verifier::opaque]
    pub open spec fn kept_waiting(self, p: Palette) -> AppModel {
        self.showing(
            self.view.remarked(
                "· turn still running; draft kept in the composer"@,
                p,
            ).at_bottom(),
        )
    }

    /// What the escape key does to the session.
    pub open spec fn escaped(self, now: u64, p: Palette) -> (AppModel, Seq<ActionView>) {
        match self.view.escape() {
            EscAction::QueueAfterTool => (self.armed(p), Seq::empty()),
            EscAction::Cancel => (self.cancelled(), seq![ActionView::Cancel]),
            EscAction::RestoreDraft => (
                self.showing(self.view.drafting(now)),
                seq![ActionView::Complete],
            ),
            EscAction::Clear => (
                self.showing(self.view.composing(Seq::empty(), now)),
                seq![ActionView::Complete],
            ),
            EscAction::Quit => (self.quitting(), seq![ActionView::Quit]),
        }
    }

    /// What a key does in the composer.
    pub open spec fn composed(self, key: Key, around: SurroundingsView, now: u64, p: Palette) -> (
        AppModel,
        Seq<ActionView>,
    ) {
        let v = self.view;
        if key.code == KeyCode::Enter {
            if v.composer.len() == 0 {
                (self, Seq::empty())
            } else if v.busy {
                (self.kept_waiting(p), Seq::empty())
            } else {
                self.entered(around, now, p)
            }
        } else if key.code == KeyCode::Esc {
            self.escaped(now, p)
        } else if key.code == KeyCode::Tab {
            (
                self,
                if v.busy && v.composer.len() > 0 {
                    seq![ActionView::Queue(v.composer)]
                } else {
                    Seq::empty()
                },
            )
        } else if key.code == KeyCode::BackTab {
            (self.next_mode(), seq![ActionView::SetMode(crate::input::next_mode(v.mode))])
        } else if key.modifiers.control && (key.code == KeyCode::Char('o') || key.code
            == KeyCode::Char('O')) {
            (self.mouse_toggled(), seq![ActionView::CaptureMouse(!v.mouse_capture)])
        } else {
            match v.edited(key, now) {
                Some((m, again)) => (
                    self.showing(m),
                    if again {
                        seq![ActionView::Complete]
                    } else {
                        Seq::empty()
                    },
                ),
                None => (self, Seq::empty()),
            }
        }
    }
}

impl App {
    fn take_text(&mut self, text: String, around: &Surroundings, now: u64, p: Palette) -> (r: Vec<
        Action,
    >)
        ensures
            (final(self)@, action_views(r@)) == old(self)@.taken(text@, around@, now, p),
    {
        if is_quit_word(text.as_str()) {
            return self.stop();
        }
        match classify_slash(text.as_str()) {
            Some(a) => self.run_slash(a, around, p),
            None => {
                self.hold(text, now);
                no_actions()
            },
        }
    }

    fn stop(&mut self) -> (r: Vec<Action>)
        ensures
            final(self)@ == old(self)@.quitting(),
            action_views(r@) == seq![ActionView::Quit],
    {
        proof {
            reveal(AppModel::quitting);
        }
        self.quit = true;
        one_action(Action::Quit)
    }

    fn hold(&mut self, text: String, now: u64)
        ensures
            final(self)@ == old(self)@.holding(text@, now),
    {
        proof {
            reveal(AppModel::holding);
        }
        self.pending_submit = Some(PendingSubmit { text, staged: now });
    }

    fn enter(&mut self, around: &Surroundings, now: u64, p: Palette) -> (r: Vec<Action>)
        ensures
            (final(self)@, action_views(r@)) == old(self)@.entered(around@, now, p),
    {
        proof {
            reveal(AppModel::entered);
            reveal(AppModel::showing);
        }
        let text: String = self.view.composer.clone();
        self.view.empty_composer();
        assert(self@ == old(self)@.showing(old(self)@.view.emptied()));
        let mut acts: Vec<Action> = self.take_text(text, around, now, p);
        and_action(&mut acts, Action::Complete);
        self.view.jump_to_bottom();
        acts
    }

    fn keep_waiting(&mut self, p: Palette)
        ensures
            final(self)@ == old(self)@.kept_waiting(p),
    {
        proof {
            reveal(AppModel::kept_waiting);
            reveal(AppModel::showing);
        }
        self.view.remark("· turn still running; draft kept in the composer", p);
        self.view.jump_to_bottom();
    }

    fn escape_key(&mut self, now: u64, p: Palette) -> (r: Vec<Action>)
        ensures
            (final(self)@, action_views(r@)) == old(self)@.escaped(now, p),
    {
        match esc_action(&self.view) {
            EscAction::QueueAfterTool => {
                self.arm_queued_after_tool(p);
                no_actions()
            },
            EscAction::Cancel => self.cancel_active_turn(),
            EscAction::RestoreDraft => {
                self.view.restore_draft(now);
                proof {
                    reveal(AppModel::showing);
                }
                one_action(Action::Complete)
            },
            EscAction::Clear => {
                self.view.clear_composer_line(now);
                proof {
                    reveal(AppModel::showing);
                }
                one_action(Action::Complete)
            },
            EscAction::Quit => self.stop(),
        }
    }

    fn edit(&mut self, key: Key, now: u64) -> (r: Vec<Action>)
        ensures
            (final(self)@, action_views(r@)) == (match old(self)@.view.edited(key, now) {
                Some((m, again)) => (
                    old(self)@.showing(m),
                    if again {
                        seq![ActionView::Complete]
                    } else {
                        Seq::empty()
                    },
                ),
                None => (old(self)@, Seq::empty()),
            }),
    {
        proof {
            reveal(AppModel::showing);
        }
        let again: Option<bool> = self.view.edit_key(key, now);
        match again {
            Some(true) => one_action(Action::Complete),
            _ => no_actions(),
        }
    }

    /// Do what a key asks in the composer.
    fn composer_key(&mut self, key: Key, around: &Surroundings, now: u64, p: Palette) -> (r: Vec<
        Action,
    >)
        ensures
            (final(self)@, action_views(r@)) == old(self)@.composed(key, around@, now, p),
    {
        if key.code == KeyCode::Enter {
            if self.view.composer.as_str().is_empty() {
                return no_actions();
            }
            if self.view.busy {
                self.keep_waiting(p);
                return no_actions();
            }
            return self.enter(around, now, p);
        }
        if key.code == KeyCode::Esc {
            return self.escape_key(now, p);
        }
        if key.code == KeyCode::Tab {
            if self.view.busy && !self.view.composer.as_str().is_empty() {
                return one_action(Action::Queue(self.view.composer.clone()));
            }
            return no_actions();
        }
        if key.code == KeyCode::BackTab {
            return self.step_mode();
        }
        if key.modifiers.control && (key.code == KeyCode::Char('o') || key.code == KeyCode::Char(
            'O',
        )) {
            return self.toggle_mouse_capture();
        }
        self.edit(key, now)
    }
}

// ---- the menu ---------------------------------------------------------------
/// What the menu asks for after a key.
#[derive(Debug, PartialEq, Eq)]
pub enum MenuStep {
    Stay,
    Close,
    /// Read the sessions and the settings again.
    Reload,
    Write(SettingsWrite),
    /// Leave the session.
    Leave(Outcome),
}

/// What such a request holds.
#[verifier::ext_equal]
pub enum StepView {
    Stay,
    Close,
    Reload,
    Write(WriteView),
    Leave(OutcomeView),
}

impl View for MenuStep {
    type V = StepView;

    open spec fn view(&self) -> StepView {
        match self {
            MenuStep::Stay => StepView::Stay,
            MenuStep::Close => StepView::Close,
            MenuStep::Reload => StepView::Reload,
            MenuStep::Write(w) => StepView::Write(w@),
            MenuStep::Leave(o) => StepView::Leave(o@),
        }
    }
}

/// Writing something, where there is something to write.
pub open spec fn writing(w: Option<WriteView>) -> StepView {
    match w {
        Some(x) => StepView::Write(x),
        None => StepView::Stay,
    }
}

impl MenuView {
    /// The editor with another text.
    pub open spec fn with_edit(self, text: Seq<char>) -> MenuView {
        MenuView { editing: Some(text), ..self }
    }

    /// The editor left without saving.
    pub open spec fn unedited(self) -> MenuView {
        MenuView { editing: None, editing_api_key: false, status: None, ..self }
    }

    /// The key editor open.
    pub open spec fn editing_key(self) -> MenuView {
        MenuView { editing: Some(Seq::empty()), editing_api_key: true, status: None, ..self }
    }

    /// What a key does in an open editor.
    pub open spec fn edit_keyed(self, text: Seq<char>, code: KeyCode) -> (MenuView, StepView) {
        match code {
            KeyCode::Enter => (self, writing(self.commitment(text))),
            KeyCode::Esc => (self.unedited(), StepView::Stay),
            KeyCode::Backspace => (
                self.with_edit(
                    if text.len() > 0 {
                        text.drop_last()
                    } else {
                        text
                    },
                ),
                StepView::Stay,
            ),
            KeyCode::Char(c) => (self.with_edit(text.push(c)), StepView::Stay),
            _ => (self, StepView::Stay),
        }
    }

    /// What activating the selected row does.
    pub open spec fn activated(self) -> (MenuView, StepView) {
        match self.current_row() {
            None => (self, StepView::Stay),
            Some(RowView::Goto(page)) => (self.on(page), StepView::Stay),
            Some(RowView::Project(dir)) => (self.on(PageView::Sessions(dir)), StepView::Stay),
            Some(RowView::Field(_)) => (self.editing_current(), StepView::Stay),
            Some(RowView::ChangeApiKey) => (self.editing_key(), StepView::Stay),
            Some(RowView::Close) => (self, StepView::Close),
            Some(RowView::Session(path)) => (self, StepView::Leave(OutcomeView::Resume(path))),
            Some(RowView::NewSession(dir)) => (self, StepView::Leave(OutcomeView::NewIn(dir))),
        }
    }

    /// What a step through the selected field's values does.
    pub open spec fn cycled(self, forward: bool) -> (MenuView, StepView) {
        match self.current_field() {
            None => (self, StepView::Stay),
            Some(i) => match self.step(forward) {
                Some(v) => (self, writing(self.commitment(v))),
                None => (
                    MenuView {
                        status: if self.settings.fields[i].kind == FieldKind::Model {
                            Some("only one saved model — press ↵ to add another"@)
                        } else {
                            self.status
                        },
                        ..self
                    },
                    StepView::Stay,
                ),
            },
        }
    }

    /// What forgetting the selected model asks for.
    pub open spec fn forgetting(self) -> StepView {
        match self.current_field() {
            Some(i) => if self.settings.fields[i].kind == FieldKind::Model {
                StepView::Write(WriteView::RemoveModel { value: self.settings.fields[i].value })
            } else {
                StepView::Stay
            },
            None => StepView::Stay,
        }
    }

    /// What a key does in the menu.
    pub open spec fn keyed(self, code: KeyCode) -> (MenuView, StepView) {
        match self.editing {
            Some(text) => self.edit_keyed(text, code),
            None => match code {
                KeyCode::Up => (self.moved(-1), StepView::Stay),
                KeyCode::Down => (self.moved(1), StepView::Stay),
                KeyCode::Right => if self.page is Settings {
                    self.cycled(true)
                } else {
                    (self, StepView::Stay)
                },
                KeyCode::Left => if self.page is Settings {
                    self.cycled(false)
                } else {
                    match self.above() {
                        Some(page) => (self.on(page), StepView::Stay),
                        None => (self, StepView::Close),
                    }
                },
                KeyCode::Esc => (self, StepView::Close),
                KeyCode::Enter => self.activated(),
                KeyCode::Char(c) => if c == 'r' {
                    (self, StepView::Reload)
                } else if c == 'd' {
                    (self, self.forgetting())
                } else if c == 'q' {
                    (self, StepView::Close)
                } else {
                    (self, StepView::Stay)
                },
                _ => (self, StepView::Stay),
            },
        }
    }
}

fn write_step(w: Option<SettingsWrite>) -> (r: MenuStep)
    ensures
        r@ == writing(write_view(w)),
{
    match w {
        Some(x) => MenuStep::Write(x),
        None => MenuStep::Stay,
    }
}

impl MenuState {
    fn edit_key(&mut self, text: String, code: KeyCode) -> (r: MenuStep)
        requires
            text_option(old(self).editing) == Some(text@),
        ensures
            (final(self)@, r@) == old(self)@.edit_keyed(text@, code),
    {
        match code {
            KeyCode::Enter => write_step(self.commit(text.as_str())),
            KeyCode::Esc => {
                self.cancel_edit();
                MenuStep::Stay
            },
            KeyCode::Backspace => {
                let n: usize = text.as_str().unicode_len();
                if n > 0 {
                    let rest: String = text.as_str().substring_char(0, n - 1).to_owned();
                    assert(rest@ =~= text@.drop_last());
                    self.editing = Some(rest);
                }
                MenuStep::Stay
            },
            KeyCode::Char(c) => {
                let mut longer: String = text;
                longer.push(c);
                self.editing = Some(longer);
                MenuStep::Stay
            },
            _ => MenuStep::Stay,
        }
    }

    /// Act on the selected row.
    pub fn activate(&mut self) -> (r: MenuStep)
        ensures
            (final(self)@, r@) == old(self)@.activated(),
    {
        match self.current_row() {
            None => MenuStep::Stay,
            Some(Row::Goto(page)) => {
                self.goto(page);
                MenuStep::Stay
            },
            Some(Row::Project(dir)) => {
                self.goto(MenuPage::Sessions(dir));
                MenuStep::Stay
            },
            Some(Row::Field(_)) => {
                self.begin_edit();
                MenuStep::Stay
            },
            Some(Row::ChangeApiKey) => {
                self.begin_api_key_edit();
                MenuStep::Stay
            },
            Some(Row::Close) => MenuStep::Close,
            Some(Row::Session(path)) => MenuStep::Leave(Outcome::Resume(path)),
            Some(Row::NewSession(dir)) => MenuStep::Leave(Outcome::NewIn(dir)),
        }
    }

    fn on_settings(&self) -> (r: bool)
        ensures
            r == (self@.page is Settings),
    {
        match &self.page {
            MenuPage::Settings => true,
            _ => false,
        }
    }

    fn step_value(&mut self, forward: bool) -> (r: MenuStep)
        ensures
            (final(self)@, r@) == old(self)@.cycled(forward),
    {
        let w: Option<SettingsWrite> = self.cycle_current(forward);
        write_step(w)
    }

    fn step_back(&mut self) -> (r: MenuStep)
        ensures
            (final(self)@, r@) == (match old(self)@.above() {
                Some(page) => (old(self)@.on(page), StepView::Stay),
                None => (old(self)@, StepView::Close),
            }),
    {
        if self.back() {
            MenuStep::Stay
        } else {
            MenuStep::Close
        }
    }

    /// Do what a key asks in the menu.
    pub fn key(&mut self, code: KeyCode) -> (r: MenuStep)
        ensures
            (final(self)@, r@) == old(self)@.keyed(code),
    {
        let text: Option<String> = crate::text::copy_option(&self.editing);
        match text {
            Some(t) => {
                return self.edit_key(t, code);
            },
            None => {},
        }
        match code {
            KeyCode::Up => {
                self.move_selection(-1);
                MenuStep::Stay
            },
            KeyCode::Down => {
                self.move_selection(1);
                MenuStep::Stay
            },
            KeyCode::Right => if self.on_settings() {
                self.step_value(true)
            } else {
                MenuStep::Stay
            },
            KeyCode::Left => if self.on_settings() {
                self.step_value(false)
            } else {
                self.step_back()
            },
            KeyCode::Esc => MenuStep::Close,
            KeyCode::Enter => self.activate(),
            KeyCode::Char(c) => if c == 'r' {
                MenuStep::Reload
            } else if c == 'd' {
                write_step(self.remove_current_model())
            } else if c == 'q' {
                MenuStep::Close
            } else {
                MenuStep::Stay
            },
            _ => MenuStep::Stay,
        }
    }
}

impl ViewModel {
    /// The menu that shows.
    #[verifier::opaque]
    pub open spec fn with_menu(self, m: Option<MenuView>) -> ViewModel {
        ViewModel { menu_overlay: m, ..self }
    }
}

impl AppModel {
    /// What a key does while the menu is open.
    pub open spec fn menu_keyed(self, m: MenuView, code: KeyCode) -> (AppModel, Seq<ActionView>) {
        let (n, step) = m.keyed(code);
        let s = self.showing(self.view.with_menu(Some(n)));
        match step {
            StepView::Stay => (s, Seq::empty()),
            StepView::Close => (self.showing(self.view.with_menu(None)), Seq::empty()),
            StepView::Reload => (s, seq![ActionView::ReloadMenu]),
            StepView::Write(w) => (s, seq![ActionView::Write(w)]),
            StepView::Leave(o) => (s.left_with(o), seq![ActionView::Quit]),
        }
    }

    /// What a key does.
    pub open spec fn keyed(self, key: Key, around: SurroundingsView, now: u64, p: Palette) -> (
        AppModel,
        Seq<ActionView>,
    ) {
        if key.ends() {
            (self.quitting(), seq![ActionView::Quit])
        } else {
            self.keyed_on(key, around, now, p)
        }
    }

    /// What a key does that does not end the session.
    pub open spec fn keyed_on(self, key: Key, around: SurroundingsView, now: u64, p: Palette) -> (
        AppModel,
        Seq<ActionView>,
    ) {
        let v = self.view;
        match (v.menu_overlay, v.pending_ask, v.menu) {
            (Some(m), _, _) => self.menu_keyed(m, key.code),
            (None, Some(ask), _) => self.asked_key(ask, key.code, p),
            (None, None, Some(m)) => match v.choosing(m, key.code) {
                (n, Some(acts)) => (self.showing(n), acts),
                (n, None) => self.showing(n).composed(key, around, now, p),
            },
            (None, None, None) => self.composed(key, around, now, p),
        }
    }
}

impl App {
    fn show_menu(&mut self, m: Option<MenuState>)
        ensures
            final(self)@ == old(self)@.showing(
                old(self)@.view.with_menu(crate::view::overlay_option(m)),
            ),
    {
        proof {
            reveal(AppModel::showing);
            reveal(ViewModel::with_menu);
        }
        self.view.menu_overlay = m;
    }

    /// Do what a key asks while the menu is open.
    fn handle_menu_key(&mut self, menu: MenuState, code: KeyCode) -> (r: Vec<Action>)
        ensures
            (final(self)@, action_views(r@)) == old(self)@.menu_keyed(menu@, code),
    {
        let mut menu = menu;
        match menu.key(code) {
            MenuStep::Stay => {
                self.show_menu(Some(menu));
                no_actions()
            },
            MenuStep::Close => {
                self.show_menu(None);
                no_actions()
            },
            MenuStep::Reload => {
                self.show_menu(Some(menu));
                one_action(Action::ReloadMenu)
            },
            MenuStep::Write(w) => {
                self.show_menu(Some(menu));
                one_action(Action::Write(w))
            },
            MenuStep::Leave(o) => {
                self.show_menu(Some(menu));
                self.leave_with(o)
            },
        }
    }
}

/// Two states that differ only in what is replaced become the same.
proof fn lemma_replaced(s: AppModel, m: Option<MenuView>)
    ensures
        forall|n: Option<MenuView>|
            s.showing(s.view.with_menu(m)).showing(
                s.showing(s.view.with_menu(m)).view.with_menu(n),
            ) == #[trigger] s.showing(s.view.with_menu(n)),
        s.showing(s.view.with_menu(m)).view == s.view.with_menu(m),
{
    reveal(AppModel::showing);
    reveal(ViewModel::with_menu);
}

impl App {
    fn menu_key(&mut self, code: KeyCode) -> (r: Vec<Action>)
        requires
            old(self)@.view.menu_overlay is Some,
        ensures
            (final(self)@, action_views(r@)) == old(self)@.menu_keyed(
                old(self)@.view.menu_overlay->0,
                code,
            ),
    {
        let ghost s = self@;
        match self.view.menu_overlay.take() {
            Some(m) => {
                proof {
                    assert(self@ == s.showing(s.view.with_menu(None))) by {
                        reveal(AppModel::showing);
                        reveal(ViewModel::with_menu);
                    }
                    lemma_replaced(s, None);
                    let n = m@.keyed(code).0;
                    assert(self@.showing(self@.view.with_menu(Some(n))) == s.showing(
                        s.view.with_menu(Some(n)),
                    ));
                    assert(self@.showing(self@.view.with_menu(None)) == s.showing(
                        s.view.with_menu(None),
                    ));
                }
                self.handle_menu_key(m, code)
            },
            None => no_actions(),
        }
    }

    fn completion_key(&mut self, key: Key, around: &Surroundings, now: u64, p: Palette) -> (r: Vec<
        Action,
    >)
        requires
            old(self)@.view.menu is Some,
        ensures
            (final(self)@, action_views(r@)) == (match old(self)@.view.choosing(
                old(self)@.view.menu->0,
                key.code,
            ) {
                (n, Some(acts)) => (old(self)@.showing(n), acts),
                (n, None) => old(self)@.showing(n).composed(key, around@, now, p),
            }),
    {
        let ghost s = self@;
        match self.view.menu.take() {
            Some(m) => {
                let ghost mv = m@;
                proof {
                    assert(self@.view == s.view.with_choice(None)) by {
                        reveal(ViewModel::with_choice);
                    }
                    lemma_choosing_ignores_the_old_choice(s.view, mv, key.code);
                }
                let done: Option<Vec<Action>> = self.view.choose_key(m, key.code);
                proof {
                    assert(self@ == s.showing(s.view.choosing(mv, key.code).0)) by {
                        reveal(AppModel::showing);
                    }
                }
                match done {
                    Some(acts) => acts,
                    None => self.composer_key(key, around, now, p),
                }
            },
            None => no_actions(),
        }
    }

    /// Do what a key asks. Ctrl+C ends the session, whatever is open. The menu
    /// takes every other key while it is open; then come an open question, an
    /// open completion, and the composer.
    pub fn handle_key(&mut self, key: Key, around: &Surroundings, now: u64, p: Palette) -> (r: Vec<
        Action,
    >)
        ensures
            (final(self)@, action_views(r@)) == old(self)@.keyed(key, around@, now, p),
    {
        if key.modifiers.control && key.code == KeyCode::Char('c') {
            return self.stop();
        }
        if self.view.menu_overlay.is_some() {
            return self.menu_key(key.code);
        }
        if self.view.pending_ask.is_some() {
            return self.ask_key(key.code, p);
        }
        if self.view.menu.is_some() {
            return self.completion_key(key, around, now, p);
        }
        self.composer_key(key, around, now, p)
    }

    /// A key was pressed: drop any selection and settle a held prompt. Unless
    /// the key ends the session, it is to be handled once what is asked for here
    /// has been done.
    pub fn key_arrived(&mut self, key: Key, now: u64) -> (r: (Vec<Action>, bool))
        ensures
            ({
                let s = old(self)@.showing(old(self)@.view.unselected());
                if key.ends() {
                    !r.1 && (final(self)@, action_views(r.0@)) == (
                        s.quitting(),
                        seq![ActionView::Quit],
                    )
                } else {
                    r.1 && (final(self)@, action_views(r.0@)) == s.settled(
                        now,
                        key.may_be_pasted(),
                    )
                }
            }),
    {
        self.view.clear_selection();
        assert(self@ == old(self)@.showing(old(self)@.view.unselected())) by {
            reveal(AppModel::showing);
        }
        if key.modifiers.control && key.code == KeyCode::Char('c') {
            return (self.stop(), false);
        }
        (self.settle(now, key.can_be_pasted()), true)
    }
}

/// What a key does to a completion does not depend on what shows meanwhile.
proof fn lemma_choosing_ignores_the_old_choice(v: ViewModel, m: ChoiceView, code: KeyCode)
    ensures
        v.with_choice(None).choosing(m, code) == v.choosing(m, code),
{
    reveal(ViewModel::with_choice);
    reveal(ViewModel::accepting);
}

// ---- pasting ----------------------------------------------------------------
impl ViewModel {
    /// A pasted text in the composer, one of several lines marked.
    #[verifier::opaque]
    pub open spec fn pasted(self, raw: Seq<char>) -> ViewModel {
        let text = with_newlines(raw);
        let n = crate::text::split(text, '\n').len();
        if text.len() == 0 {
            self
        } else {
            ViewModel {
                composer: self.composer + text,
                paste_markers: if n > 1 {
                    self.paste_markers.push(
                        PasteMarker {
                            start: crate::text::byte_len(self.composer) as usize,
                            end: crate::text::byte_len(self.composer + text) as usize,
                            lines: n as usize,
                        },
                    )
                } else {
                    self.paste_markers
                },
                ..self
            }
        }
    }

    /// What is said of a paste that something else was open for.
    #[verifier::opaque]
    pub open spec fn paste_noted(self, p: Palette) -> ViewModel {
        let v = if self.menu_overlay is Some {
            ViewModel { menu_overlay: None, ..self }.remarked(
                "· paste saved in the composer; menu closed"@,
                p,
            )
        } else {
            self
        };
        if v.pending_ask is Some {
            v.remarked(
                "· paste saved in the composer; answer the permission prompt to continue"@,
                p,
            )
        } else {
            v
        }
    }
}

impl AppModel {
    /// What a paste does: an open editor takes it, else the composer, and a menu
    /// without an editor closes.
    #[verifier::opaque]
    pub open spec fn after_paste(self, raw: Seq<char>, now: u64, p: Palette) -> (
        AppModel,
        Seq<ActionView>,
    ) {
        let v = self.view;
        if v.menu_overlay is Some && v.menu_overlay->0.editing is Some {
            let m = v.menu_overlay->0;
            (
                AppModel {
                    view: ViewModel { menu_overlay: Some(m.with_edit(m.editing->0 + raw)), ..v },
                    ..self
                },
                Seq::empty(),
            )
        } else {
            let n = v.paste_noted(p).pasted(raw);
            if with_newlines(raw).len() == 0 {
                (AppModel { view: n, ..self }, Seq::empty())
            } else {
                (
                    AppModel {
                        view: ViewModel { history_pos: None, last_input: Some(now), ..n },
                        ..self
                    },
                    seq![ActionView::Complete],
                )
            }
        }
    }
}

impl ViewState {
    /// Put a paste into the open editor, if one is open.
    fn paste_into_editor(&mut self, text: &str) -> (r: bool)
        ensures
            r == (old(self)@.menu_overlay is Some && old(self)@.menu_overlay->0.editing is Some),
            r ==> final(self)@ == (ViewModel {
                menu_overlay: Some(
                    old(self)@.menu_overlay->0.with_edit(
                        old(self)@.menu_overlay->0.editing->0 + text@,
                    ),
                ),
                ..old(self)@
            }),
            !r ==> final(self)@ == old(self)@,
    {
        match self.menu_overlay.take() {
            Some(m) => {
                let mut m = m;
                let taken: bool = m.paste(text);
                self.menu_overlay = Some(m);
                taken
            },
            None => false,
        }
    }

    fn note_paste(&mut self, p: Palette)
        ensures
            final(self)@ == old(self)@.paste_noted(p),
    {
        proof {
            reveal(ViewModel::paste_noted);
        }
        if self.menu_overlay.is_some() {
            self.menu_overlay = None;
            self.remark("· paste saved in the composer; menu closed", p);
        }
        if self.pending_ask.is_some() {
            self.remark(
                "· paste saved in the composer; answer the permission prompt to continue",
                p,
            );
        }
    }

    fn take_paste(&mut self, text: &str) -> (r: bool)
        ensures
            final(self)@ == old(self)@.pasted(text@),
            r == (with_newlines(text@).len() > 0),
    {
        proof {
            reveal(ViewModel::pasted);
            crate::text::lemma_split_nonempty(with_newlines(text@), '\n');
        }
        self.append_paste(text) > 0
    }
}

impl App {
    /// A paste came: settle a held prompt, which the paste may go on with.
    pub fn paste_arrived(&mut self, now: u64) -> (r: Vec<Action>)
        ensures
            (final(self)@, action_views(r@)) == old(self)@.settled(now, true),
    {
        self.settle(now, true)
    }

    /// Take a paste.
    pub fn handle_paste(&mut self, text: &str, now: u64, p: Palette) -> (r: Vec<Action>)
        ensures
            (final(self)@, action_views(r@)) == old(self)@.after_paste(text@, now, p),
    {
        proof {
            reveal(AppModel::after_paste);
        }
        if self.view.paste_into_editor(text) {
            return no_actions();
        }
        self.view.note_paste(p);
        if !self.view.take_paste(text) {
            return no_actions();
        }
        self.view.history_pos = None;
        self.view.last_input = Some(now);
        one_action(Action::Complete)
    }
}

// ---- what the host reports back ---------------------------------------------
impl App {
    /// The sessions and the settings have been read again.
    pub fn menu_reloaded(&mut self, sessions: Vec<SessionInfo>, settings: Settings)
        ensures
            match old(self)@.view.menu_overlay {
                Some(m) => exists|ps: Seq<crate::menu::ProjectView>|
                    #[trigger] listing(session_views(sessions@), ps) && final(self)@
                        == old(self)@.showing(
                        old(self)@.view.with_menu(Some(m.reloaded(ps, settings@))),
                    ),
                None => final(self)@ == old(self)@,
            },
    {
        let ghost s = self@;
        let ghost sv = session_views(sessions@);
        match self.view.menu_overlay.take() {
            Some(m) => {
                let mut m = m;
                m.refresh(sessions, settings);
                let ghost ps = m@.projects;
                assert(listing(sv, ps));
                self.view.menu_overlay = Some(m);
                assert(self@ == s.showing(s.view.with_menu(Some(m@)))) by {
                    reveal(AppModel::showing);
                    reveal(ViewModel::with_menu);
                }
            },
            None => {},
        }
    }

    /// A field has been written, or could not be.
    pub fn field_written(&mut self, field: usize, written: Result<(String, Settings), String>)
        ensures
            match old(self)@.view.menu_overlay {
                Some(m) => if field < m.settings.fields.len() {
                    final(self)@ == old(self)@.showing(
                        old(self)@.view.with_menu(
                            Some(
                                match written {
                                    Ok((path, settings)) => MenuView {
                                        editing: None,
                                        settings: settings@,
                                        status: Some(
                                            if m.settings.fields[field as int].overridden {
                                                "saved to "@ + path@ + " — but $"@
                                                    + m.settings.fields[field as int].env
                                                    + " overrides it in this shell"@
                                            } else {
                                                "saved to "@ + path@
                                            },
                                        ),
                                        ..m
                                    },
                                    Err(e) => MenuView { status: Some(e@), ..m },
                                },
                            ),
                        ),
                    )
                } else {
                    final(self)@ == old(self)@
                },
                None => final(self)@ == old(self)@,
            },
    {
        let ghost s = self@;
        match self.view.menu_overlay.take() {
            Some(m) => {
                let mut m = m;
                assert(m@.settings.fields.len() == m.settings.fields@.len());
                if field < m.settings.fields.len() {
                    m.committed(field, written);
                }
                self.view.menu_overlay = Some(m);
                assert(self@ == s.showing(s.view.with_menu(Some(m@)))) by {
                    reveal(AppModel::showing);
                    reveal(ViewModel::with_menu);
                }
                assert(field >= m@.settings.fields.len() ==> s.showing(
                    s.view.with_menu(s.view.menu_overlay),
                ) == s) by {
                    reveal(AppModel::showing);
                    reveal(ViewModel::with_menu);
                }
            },
            None => {},
        }
    }

    /// A model has been forgotten, or could not be.
    pub fn model_removed(&mut self, name: &str, written: Result<Settings, String>)
        ensures
            match old(self)@.view.menu_overlay {
                Some(m) => final(self)@ == old(self)@.showing(
                    old(self)@.view.with_menu(
                        Some(
                            match written {
                                Ok(settings) => MenuView {
                                    settings: settings@,
                                    status: Some("removed "@ + name@ + " from the saved list"@),
                                    ..m
                                },
                                Err(e) => MenuView { status: Some(e@), ..m },
                            },
                        ),
                    ),
                ),
                None => final(self)@ == old(self)@,
            },
    {
        let ghost s = self@;
        match self.view.menu_overlay.take() {
            Some(m) => {
                let mut m = m;
                m.model_removed(name, written);
                self.view.menu_overlay = Some(m);
                assert(self@ == s.showing(s.view.with_menu(Some(m@)))) by {
                    reveal(AppModel::showing);
                    reveal(ViewModel::with_menu);
                }
            },
            None => {},
        }
    }

    /// The key has been saved, or could not be. A saved key takes effect in a
    /// session that is built anew, so this one is left.
    pub fn key_written(&mut self, written: Result<Outcome, String>) -> (r: Vec<Action>)
        ensures
            match old(self)@.view.menu_overlay {
                Some(m) => match written {
                    Ok(o) => (final(self)@, action_views(r@)) == (
                        old(self)@.showing(
                            old(self)@.view.with_menu(
                                Some(
                                    MenuView {
                                        editing: None,
                                        editing_api_key: false,
                                        pending_outcome: None,
                                        ..m
                                    },
                                ),
                            ),
                        ).left_with(o@),
                        seq![ActionView::Quit],
                    ),
                    Err(e) => (final(self)@, action_views(r@)) == (
                        old(self)@.showing(
                            old(self)@.view.with_menu(
                                Some(MenuView { status: Some(e@), ..m }),
                            ),
                        ),
                        Seq::<ActionView>::empty(),
                    ),
                },
                None => final(self)@ == old(self)@ && r@.len() == 0,
            },
    {
        let ghost s = self@;
        match self.view.menu_overlay.take() {
            Some(m) => {
                let mut m = m;
                let saved: bool = match &written {
                    Ok(_) => true,
                    Err(_) => false,
                };
                m.key_saved(written);
                let outcome: Option<Outcome> = if saved {
                    m.pending_outcome.take()
                } else {
                    None
                };
                self.view.menu_overlay = Some(m);
                assert(self@ == s.showing(s.view.with_menu(Some(m@)))) by {
                    reveal(AppModel::showing);
                    reveal(ViewModel::with_menu);
                }
                match outcome {
                    Some(o) => self.leave_with(o),
                    None => no_actions(),
                }
            },
            None => Vec::new(),
        }
    }
}

// ---- what holds of every key ------------------------------------------------
/// While the menu is open nothing reaches what is behind it: the transcript, the
/// composer and its history, a question and a held prompt stay as they are.
pub proof fn the_menu_takes_every_key(
    s: AppModel,
    key: Key,
    around: SurroundingsView,
    now: u64,
    p: Palette,
)
    requires
        s.view.menu_overlay is Some,
    ensures
        ({
            let t = s.keyed(key, around, now, p).0;
            &&& t.view.transcript == s.view.transcript
            &&& t.view.composer == s.view.composer
            &&& t.view.prompt_history == s.view.prompt_history
            &&& t.view.pending_ask == s.view.pending_ask
            &&& t.pending_submit == s.pending_submit
            &&& t.view.mode == s.view.mode
        }),
{
    reveal(AppModel::showing);
    reveal(AppModel::quitting);
    reveal(ViewModel::with_menu);
    reveal(AppModel::left_with);
}

/// Ctrl+C always ends the session, whatever is open and whatever is running.
pub proof fn ctrl_c_always_quits(
    s: AppModel,
    key: Key,
    around: SurroundingsView,
    now: u64,
    p: Palette,
)
    requires
        key.modifiers.control,
        key.code == KeyCode::Char('c'),
    ensures
        s.keyed(key, around, now, p).0.quit,
        s.keyed(key, around, now, p).0.view == s.view,
        s.keyed(key, around, now, p).1 == seq![ActionView::Quit],
{
    reveal(AppModel::quitting);
}

/// A question stays open, and nothing is done, until a key answers it or the
/// escape key stops the turn.
pub proof fn a_question_waits_for_its_answer(
    s: AppModel,
    key: Key,
    around: SurroundingsView,
    now: u64,
    p: Palette,
)
    requires
        !key.ends(),
        s.view.menu_overlay is None,
        s.view.pending_ask is Some,
        AppModel::answer_to(s.view.pending_ask->0, key.code) is None,
        key.code != KeyCode::Esc || !s.view.busy,
    ensures
        s.keyed(key, around, now, p) == (s, Seq::<ActionView>::empty()),
{
}

/// A held prompt is never lost: it is offered to the runtime, or it is back in
/// front of what the composer holds.
pub proof fn a_held_prompt_is_never_lost(
    s: AppModel,
    text: Seq<char>,
    staged: u64,
    now: u64,
    continuation: bool,
)
    ensures
        ({
            let (t, acts) = s.holding(text, staged).settled(now, continuation);
            &&& t.pending_submit is None
            &&& (acts == seq![ActionView::Submit(text)] && t.view == s.view) || (acts.len() == 0
                && t.view.composer == text.push('\n') + s.view.composer)
        }),
{
    reveal(AppModel::holding);
    reveal(AppModel::settled);
}

/// Entering a text while a turn runs never loses it.
pub proof fn a_draft_waits_for_the_turn(
    s: AppModel,
    key: Key,
    around: SurroundingsView,
    now: u64,
    p: Palette,
)
    requires
        s.view.menu_overlay is None,
        s.view.pending_ask is None,
        s.view.menu is None,
        s.view.busy,
        key.code == KeyCode::Enter,
    ensures
        s.keyed(key, around, now, p).0.view.composer == s.view.composer,
        s.keyed(key, around, now, p).1.len() == 0,
{
    reveal(AppModel::kept_waiting);
    reveal(AppModel::showing);
}

} // verus!
