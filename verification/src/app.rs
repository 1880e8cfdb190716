//! The running session: what every event, key and click does to it.
//!
//! Nothing here reads a key, a clock or a disk. What has happened comes in as a
//! value; what is to be done goes out as [`Action`]s, to be carried out in order.
use crate::input::{push_history, remembered, staged_view, PendingSubmit};
use crate::menu::{outcome_view, Outcome, OutcomeView, SettingsWrite, WriteView};
use crate::report::{
    call_fields,
    call_in,
    prompt_line,
    retry_line,
    retry_notice_line,
    user_prompt_line,
    CallFields,
    ResultView,
    ToolResultBody,
};
use crate::styled::{raw, styled_line, Line, LineView, Span, line, span_views};
use crate::text::{decimal, number, strings, text_option};
use crate::theme::Palette;
use crate::turn::{
    call_lines,
    call_rows,
    end_call,
    live_views,
    note_usage,
    restore_history,
    restored,
    start_call,
    turn_views,
    wind_up,
    with_usage,
    LiveTool,
    LiveView,
    ToolCall,
    ToolCallView,
    Turn,
};
use crate::view::{
    blank_state,
    bytes_option,
    AgentMode,
    AskView,
    PendingAsk,
    Usage,
    ViewModel,
    ViewState,
};
use vstd::prelude::*;
use vstd::string::*;

verus! {

/// The answer to a permission question.
#[derive(Debug, PartialEq, Eq)]
pub enum AskResponse {
    Once,
    /// Allow what the rule covers for this session.
    Session(String),
    /// Allow what the rule covers from now on.
    Always(String),
    Deny(String),
}

/// What an answer holds.
#[verifier::ext_equal]
pub enum ResponseView {
    Once,
    Session(Seq<char>),
    Always(Seq<char>),
    Deny(Seq<char>),
}

impl View for AskResponse {
    type V = ResponseView;

    open spec fn view(&self) -> ResponseView {
        match self {
            AskResponse::Once => ResponseView::Once,
            AskResponse::Session(r) => ResponseView::Session(r@),
            AskResponse::Always(r) => ResponseView::Always(r@),
            AskResponse::Deny(r) => ResponseView::Deny(r@),
        }
    }
}

/// What the host is to do.
#[derive(Debug, PartialEq, Eq)]
pub enum Action {
    /// Tell the runtime to stop.
    Quit,
    /// Cancel the running turn.
    Cancel,
    SetMode(AgentMode),
    Answer { id: u64, response: AskResponse },
    Compact,
    ShowGoal,
    SetGoal(Option<String>),
    Rewind { steps: usize },
    /// Offer a prompt to the runtime; where it is taken, report that.
    Submit(String),
    /// Offer a prompt for its queue; where it is taken, report that.
    Queue(String),
    /// Keep a prompt for the history of later sessions.
    Remember(String),
    /// List the directory that the composer mentions and refresh the completion.
    Complete,
    /// Read the sessions and the settings and open the menu.
    OpenMenu,
    /// Likewise, on the sessions of this directory.
    OpenResume,
    /// Likewise, with the key editor open.
    OpenLogin,
    /// Read the sessions and the settings again.
    ReloadMenu,
    /// Write a setting and report the result.
    Write(SettingsWrite),
    /// Write the transcript and report the result.
    Export { path: String, body: String },
    /// Read the memory files and report them.
    ReadMemory,
    /// Capture the mouse, or hand it back to the terminal.
    CaptureMouse(bool),
}

/// What an action holds.
#[verifier::ext_equal]
pub enum ActionView {
    Quit,
    Cancel,
    SetMode(AgentMode),
    Answer { id: u64, response: ResponseView },
    Compact,
    ShowGoal,
    SetGoal(Option<Seq<char>>),
    Rewind { steps: nat },
    Submit(Seq<char>),
    Queue(Seq<char>),
    Remember(Seq<char>),
    Complete,
    OpenMenu,
    OpenResume,
    OpenLogin,
    ReloadMenu,
    Write(WriteView),
    Export { path: Seq<char>, body: Seq<char> },
    ReadMemory,
    CaptureMouse(bool),
}

impl View for Action {
    type V = ActionView;

    open spec fn view(&self) -> ActionView {
        match self {
            Action::Quit => ActionView::Quit,
            Action::Cancel => ActionView::Cancel,
            Action::SetMode(m) => ActionView::SetMode(*m),
            Action::Answer { id, response } => ActionView::Answer {
                id: *id,
                response: response@,
            },
            Action::Compact => ActionView::Compact,
            Action::ShowGoal => ActionView::ShowGoal,
            Action::SetGoal(g) => ActionView::SetGoal(text_option(*g)),
            Action::Rewind { steps } => ActionView::Rewind { steps: *steps as nat },
            Action::Submit(t) => ActionView::Submit(t@),
            Action::Queue(t) => ActionView::Queue(t@),
            Action::Remember(t) => ActionView::Remember(t@),
            Action::Complete => ActionView::Complete,
            Action::OpenMenu => ActionView::OpenMenu,
            Action::OpenResume => ActionView::OpenResume,
            Action::OpenLogin => ActionView::OpenLogin,
            Action::ReloadMenu => ActionView::ReloadMenu,
            Action::Write(w) => ActionView::Write(w@),
            Action::Export { path, body } => ActionView::Export { path: path@, body: body@ },
            Action::ReadMemory => ActionView::ReadMemory,
            Action::CaptureMouse(on) => ActionView::CaptureMouse(*on),
        }
    }
}

/// What some actions hold.
pub open spec fn action_views(v: Seq<Action>) -> Seq<ActionView> {
    v.map_values(|a: Action| a@)
}

/// Nothing to do.
pub fn no_actions() -> (v: Vec<Action>)
    ensures
        action_views(v@) == Seq::<ActionView>::empty(),
{
    let v: Vec<Action> = Vec::new();
    assert(action_views(v@) =~= Seq::<ActionView>::empty());
    v
}

/// One thing to do.
pub fn one_action(a: Action) -> (v: Vec<Action>)
    ensures
        action_views(v@) == seq![a@],
{
    let ghost av = a@;
    let mut v: Vec<Action> = Vec::new();
    v.push(a);
    assert(action_views(v@) =~= seq![av]);
    v
}

/// One more thing to do, after the others.
pub fn and_action(v: &mut Vec<Action>, a: Action)
    ensures
        action_views(final(v)@) == action_views(old(v)@).push(a@),
{
    let ghost before = action_views(v@);
    let ghost av = a@;
    v.push(a);
    assert(action_views(v@) =~= before.push(av));
}

/// Something that the runtime reports.
#[derive(Debug, PartialEq, Eq)]
pub enum AgentEvent {
    /// Answer text.
    Text(String),
    Reasoning(String),
    ToolStart { call: ToolCall },
    ToolEnd { call_id: String, tool: String, result: ToolResultBody },
    /// A file was changed.
    Artifact { path: String, before: Option<Vec<u8>>, after: Option<Vec<u8>> },
    PermissionAsk { id: u64, tool: String, command: Option<String>, reason: String },
    PermissionDecision,
    /// A round of the turn began.
    Iter,
    Retry { retries: u32 },
    Usage(Usage),
    /// The size of the request about to be made, estimated.
    Context { est_tokens: u64 },
    /// The turn ended.
    Outcome,
    /// The turn failed.
    Error(String),
    ModeChanged(AgentMode),
    Notice(String),
    /// A turn is starting.
    Ready,
    Idle,
    /// Events were lost.
    Lagged(u64),
}

/// What an event holds.
#[verifier::ext_equal]
pub enum EventView {
    Text(Seq<char>),
    Reasoning(Seq<char>),
    ToolStart { call: ToolCallView },
    ToolEnd { call_id: Seq<char>, tool: Seq<char>, result: ResultView },
    Artifact { path: Seq<char>, before: Option<Seq<u8>>, after: Option<Seq<u8>> },
    PermissionAsk { id: u64, tool: Seq<char>, command: Option<Seq<char>>, reason: Seq<char> },
    PermissionDecision,
    Iter,
    Retry { retries: u32 },
    Usage(Usage),
    Context { est_tokens: u64 },
    Outcome,
    Error(Seq<char>),
    ModeChanged(AgentMode),
    Notice(Seq<char>),
    Ready,
    Idle,
    Lagged(u64),
}

impl View for AgentEvent {
    type V = EventView;

    open spec fn view(&self) -> EventView {
        match self {
            AgentEvent::Text(t) => EventView::Text(t@),
            AgentEvent::Reasoning(t) => EventView::Reasoning(t@),
            AgentEvent::ToolStart { call } => EventView::ToolStart { call: call@ },
            AgentEvent::ToolEnd { call_id, tool, result } => EventView::ToolEnd {
                call_id: call_id@,
                tool: tool@,
                result: result@,
            },
            AgentEvent::Artifact { path, before, after } => EventView::Artifact {
                path: path@,
                before: bytes_option(*before),
                after: bytes_option(*after),
            },
            AgentEvent::PermissionAsk { id, tool, command, reason } => EventView::PermissionAsk {
                id: *id,
                tool: tool@,
                command: text_option(*command),
                reason: reason@,
            },
            AgentEvent::PermissionDecision => EventView::PermissionDecision,
            AgentEvent::Iter => EventView::Iter,
            AgentEvent::Retry { retries } => EventView::Retry { retries: *retries },
            AgentEvent::Usage(u) => EventView::Usage(*u),
            AgentEvent::Context { est_tokens } => EventView::Context { est_tokens: *est_tokens },
            AgentEvent::Outcome => EventView::Outcome,
            AgentEvent::Error(e) => EventView::Error(e@),
            AgentEvent::ModeChanged(m) => EventView::ModeChanged(*m),
            AgentEvent::Notice(n) => EventView::Notice(n@),
            AgentEvent::Ready => EventView::Ready,
            AgentEvent::Idle => EventView::Idle,
            AgentEvent::Lagged(n) => EventView::Lagged(*n),
        }
    }
}

/// The running session.
#[derive(Debug, PartialEq, Eq)]
pub struct App {
    pub view: ViewState,
    /// The directory that the session works in.
    pub cwd: String,
    pub quit: bool,
    /// The calls in flight.
    pub live_tools: Vec<LiveTool>,
    /// What the host is to do after the session has been left.
    pub outcome: Option<Outcome>,
    pub pending_submit: Option<PendingSubmit>,
    /// Prompts in the runtime's queue, shown when their turn starts.
    pub queued_prompts: Vec<String>,
    /// Cancel the turn when the calls in flight have ended, so that the queued
    /// prompt starts.
    pub send_queued_after_tool: bool,
}

/// What the running session holds.
pub struct AppModel {
    pub view: ViewModel,
    pub cwd: Seq<char>,
    pub quit: bool,
    pub live_tools: Seq<LiveView>,
    pub outcome: Option<OutcomeView>,
    pub pending_submit: Option<(Seq<char>, u64)>,
    pub queued_prompts: Seq<Seq<char>>,
    pub send_queued_after_tool: bool,
}

impl View for App {
    type V = AppModel;

    open spec fn view(&self) -> AppModel {
        AppModel {
            view: self.view@,
            cwd: self.cwd@,
            quit: self.quit,
            live_tools: live_views(self.live_tools@),
            outcome: outcome_view(self.outcome),
            pending_submit: staged_view(self.pending_submit),
            queued_prompts: strings(self.queued_prompts@),
            send_queued_after_tool: self.send_queued_after_tool,
        }
    }
}

/// A row without a style.
pub open spec fn plain_line(t: Seq<char>) -> LineView {
    line(seq![raw(t)])
}

impl ViewModel {
    /// A prompt echoed where its turn begins and kept in the history, which is
    /// left.
    #[verifier::opaque]
    pub open spec fn prompted(self, text: Seq<char>, p: Palette) -> ViewModel {
        ViewModel {
            transcript: self.transcript.push(prompt_line(text, p)),
            prompt_history: remembered(self.prompt_history, text),
            history_pos: None,
            history_draft: Seq::empty(),
            ..self
        }
    }

    /// A turn reported as started; what was marked before stays.
    #[verifier::opaque]
    pub open spec fn readied(self, now: u64) -> ViewModel {
        let m = ViewModel {
            busy: true,
            turn_started: if self.turn_started is None {
                Some(now)
            } else {
                self.turn_started
            },
            ..self
        };
        if m.reasoning_started is None {
            m.thinking_from(m.turn_started->0)
        } else {
            m
        }
    }

    /// Answer text that came in.
    #[verifier::opaque]
    pub open spec fn with_text(self, t: Seq<char>, now: u64) -> ViewModel {
        let m = self.thought_until(now);
        ViewModel { current_text: m.current_text + t, current_dirty: true, ..m }.streamed(
            t.len(),
            now,
        )
    }

    /// Reasoning that came in.
    #[verifier::opaque]
    pub open spec fn with_reasoning(self, t: Seq<char>, now: u64) -> ViewModel {
        ViewModel {
            reasoning_started: if self.reasoning_started is None {
                Some(now)
            } else {
                self.reasoning_started
            },
            current_reasoning: self.current_reasoning + t,
            current_dirty: true,
            ..self
        }
    }

    /// A question put to the user.
    #[verifier::opaque]
    pub open spec fn asked(self, a: AskView, now: u64, p: Palette) -> ViewModel {
        ViewModel { pending_ask: Some(a), ..self.flushed(now, p) }
    }

    /// The size of the next request, estimated.
    #[verifier::opaque]
    pub open spec fn estimated(self, tokens: u64) -> ViewModel {
        ViewModel {
            context_tokens: Some(tokens),
            context_tokens_estimated: true,
            cache_hit_rate: None,
            ..self
        }
    }

    /// The view pinned to the bottom.
    pub open spec fn at_bottom(self) -> ViewModel {
        ViewModel { follow: true, scroll_top: 0, ..self }
    }

    /// A quiet remark.
    pub open spec fn remarked(self, t: Seq<char>, p: Palette) -> ViewModel {
        self.told(styled_line(t, p.chrome()))
    }
}

impl ViewModel {
    /// What an event that only concerns the view changes.
    #[verifier::opaque]
    pub open spec fn showing(self, ev: EventView, cwd: Seq<char>, now: u64, p: Palette) -> ViewModel {
        match ev {
            EventView::Text(t) => self.with_text(t, now),
            EventView::Reasoning(t) => self.with_reasoning(t, now),
            EventView::Artifact { path, before, after } => self.flushed(now, p).changed(
                cwd,
                path,
                before,
                after,
                p,
            ),
            EventView::PermissionAsk { id, tool, command, reason } => self.asked(
                AskView { id, tool, command, reason },
                now,
                p,
            ),
            EventView::PermissionDecision => ViewModel { pending_ask: None, ..self },
            EventView::Retry { retries } => self.flushed(now, p).told(retry_line(retries, p)),
            EventView::Usage(u) => with_usage(self, u),
            EventView::Context { est_tokens } => self.estimated(est_tokens),
            EventView::ModeChanged(m) => ViewModel { mode: m, ..self },
            EventView::Notice(n) => self.flushed(now, p).remarked("· "@ + n, p),
            EventView::Lagged(n) => self.told(
                plain_line("[stream lagged "@ + decimal(n as nat) + "; oldest deltas lost]"@),
            ),
            _ => self,
        }
    }
}

impl AppModel {
    /// A queued prompt starts where a turn is reported as started and none ran.
    pub open spec fn with_queued(self, now: u64, p: Palette) -> AppModel {
        if !self.view.busy && self.queued_prompts.len() > 0 {
            AppModel {
                view: ViewModel {
                    queued_messages: self.queued_prompts.len() - 1,
                    queued_after_tool: false,
                    ..self.view.prompted(self.queued_prompts[0], p).begun(now)
                },
                queued_prompts: self.queued_prompts.skip(1),
                send_queued_after_tool: false,
                ..self
            }
        } else {
            self
        }
    }

    /// A call has ended. The last one hands over to a queued prompt where that
    /// was asked for.
    #[verifier::opaque]
    pub open spec fn after_call(
        self,
        id: Seq<char>,
        tool: Seq<char>,
        r: ResultView,
        now: u64,
        p: Palette,
    ) -> (AppModel, Seq<ActionView>) {
        let (view, live_tools) = self.view.call_ended(self.live_tools, id, tool, r, now, p);
        let s = AppModel { view, live_tools, ..self };
        if view.running == 0 && s.send_queued_after_tool {
            (
                AppModel {
                    view: ViewModel { queued_after_tool: false, ..view },
                    send_queued_after_tool: false,
                    ..s
                },
                seq![ActionView::Cancel],
            )
        } else {
            (s, Seq::empty())
        }
    }

    /// The turn is over.
    pub open spec fn after_turn(self, failure: Option<Seq<char>>, now: u64, p: Palette) -> AppModel {
        AppModel {
            view: self.view.wound_up(self.live_tools, failure, now, p),
            live_tools: Seq::empty(),
            ..self
        }
    }

    /// A turn is starting, perhaps that of a queued prompt.
    #[verifier::opaque]
    pub open spec fn after_ready(self, now: u64, p: Palette) -> (AppModel, Seq<ActionView>) {
        let s = self.with_queued(now, p);
        (
            AppModel { view: s.view.readied(now), ..s },
            if !self.view.busy && self.queued_prompts.len() > 0 {
                seq![ActionView::Remember(self.queued_prompts[0])]
            } else {
                Seq::empty()
            },
        )
    }

    /// What an event changes, and what is to be done.
    pub open spec fn after(self, ev: EventView, now: u64, p: Palette) -> (
        AppModel,
        Seq<ActionView>,
    ) {
        let v = self.view;
        match ev {
            EventView::ToolStart { call } => {
                let (view, live_tools) = v.call_started(
                    self.live_tools,
                    call.id,
                    call.name,
                    call_rows(call.name, call_in(call.arguments), call.arguments, p),
                    now,
                    p,
                );
                (AppModel { view, live_tools, ..self }, Seq::empty())
            },
            EventView::ToolEnd { call_id, tool, result } => self.after_call(
                call_id,
                tool,
                result,
                now,
                p,
            ),
            EventView::Outcome => (self.after_turn(None, now, p), Seq::empty()),
            EventView::Error(e) => (self.after_turn(Some(e), now, p), Seq::empty()),
            EventView::Idle => (self.after_turn(None, now, p), Seq::empty()),
            EventView::Ready => self.after_ready(now, p),
            _ => (AppModel { view: v.showing(ev, self.cwd, now, p), ..self }, Seq::empty()),
        }
    }
}

impl ViewState {
    /// Echo a prompt and keep it in the history.
    pub fn record_prompt(&mut self, text: &str, p: Palette)
        ensures
            final(self)@ == old(self)@.prompted(text@, p),
    {
        proof {
            reveal(ViewModel::prompted);
        }
        self.tell(user_prompt_line(text, p));
        push_history(&mut self.prompt_history, text.to_owned());
        self.history_pos = None;
        self.history_draft = String::new();
        assert(self@ =~= old(self)@.prompted(text@, p));
    }

    /// Pin the view to the bottom.
    pub fn jump_to_bottom(&mut self)
        ensures
            final(self)@ == old(self)@.at_bottom(),
    {
        self.follow = true;
        self.scroll_top = 0;
    }

    /// Add a quiet remark.
    pub fn remark(&mut self, t: &str, p: Palette)
        ensures
            final(self)@ == old(self)@.remarked(t@, p),
    {
        self.tell(Line::styled(t, p.chrome()));
    }

    fn add_text(&mut self, t: &str, now: u64)
        ensures
            final(self)@ == old(self)@.with_text(t@, now),
    {
        proof {
            reveal(ViewModel::with_text);
        }
        self.finish_reasoning(now);
        self.current_text.append(t);
        self.current_dirty = true;
        self.track_stream(t, now);
    }

    fn add_reasoning(&mut self, t: &str, now: u64)
        ensures
            final(self)@ == old(self)@.with_reasoning(t@, now),
    {
        proof {
            reveal(ViewModel::with_reasoning);
        }
        self.note_reasoning(now);
        self.current_reasoning.append(t);
        self.current_dirty = true;
    }

    fn show_change(
        &mut self,
        cwd: &str,
        path: String,
        before: Option<Vec<u8>>,
        after: Option<Vec<u8>>,
        now: u64,
        p: Palette,
    )
        ensures
            final(self)@ == old(self)@.flushed(now, p).changed(
                cwd@,
                path@,
                bytes_option(before),
                bytes_option(after),
                p,
            ),
    {
        self.flush_text_at(now, p);
        self.show_artifact(cwd, path, before, after, p);
    }

    fn ask(&mut self, a: PendingAsk, now: u64, p: Palette)
        ensures
            final(self)@ == old(self)@.asked(a@, now, p),
    {
        proof {
            reveal(ViewModel::asked);
        }
        self.flush_text_at(now, p);
        self.pending_ask = Some(a);
    }

    fn note_retry(&mut self, retries: u32, now: u64, p: Palette)
        ensures
            final(self)@ == old(self)@.flushed(now, p).told(retry_line(retries, p)),
    {
        self.flush_text_at(now, p);
        self.tell(retry_notice_line(retries, p));
    }

    fn estimate(&mut self, tokens: u64)
        ensures
            final(self)@ == old(self)@.estimated(tokens),
    {
        proof {
            reveal(ViewModel::estimated);
        }
        self.context_tokens = Some(tokens);
        self.context_tokens_estimated = true;
        self.cache_hit_rate = None;
    }

    fn notice(&mut self, n: &str, now: u64, p: Palette)
        ensures
            final(self)@ == old(self)@.flushed(now, p).remarked("· "@ + n@, p),
    {
        self.flush_text_at(now, p);
        let t: String = "· ".to_owned().concat(n);
        self.remark(t.as_str(), p);
    }

    fn note_lag(&mut self, n: u64)
        ensures
            final(self)@ == old(self)@.told(
                plain_line("[stream lagged "@ + decimal(n as nat) + "; oldest deltas lost]"@),
            ),
    {
        let t: String = "[stream lagged ".to_owned().concat(number(n).as_str()).concat(
            "; oldest deltas lost]",
        );
        let mut spans: Vec<Span> = Vec::new();
        spans.push(Span::raw(t.as_str()));
        assert(span_views(spans@) =~= seq![raw(t@)]);
        self.tell(Line::new(spans));
    }

    /// Show an event that only concerns the view.
    fn show_event(&mut self, ev: AgentEvent, cwd: &str, now: u64, p: Palette)
        ensures
            final(self)@ == old(self)@.showing(ev@, cwd@, now, p),
    {
        proof {
            reveal(ViewModel::showing);
        }
        match ev {
            AgentEvent::Text(t) => self.add_text(t.as_str(), now),
            AgentEvent::Reasoning(t) => self.add_reasoning(t.as_str(), now),
            AgentEvent::Artifact { path, before, after } => {
                self.show_change(cwd, path, before, after, now, p);
            },
            AgentEvent::PermissionAsk { id, tool, command, reason } => {
                self.ask(PendingAsk { id, tool, command, reason }, now, p);
            },
            AgentEvent::PermissionDecision => {
                self.pending_ask = None;
            },
            AgentEvent::Retry { retries } => self.note_retry(retries, now, p),
            AgentEvent::Usage(u) => note_usage(self, u),
            AgentEvent::Context { est_tokens } => self.estimate(est_tokens),
            AgentEvent::ModeChanged(m) => {
                self.mode = m;
            },
            AgentEvent::Notice(n) => self.notice(n.as_str(), now, p),
            AgentEvent::Lagged(n) => self.note_lag(n),
            _ => {},
        }
    }

    fn ready(&mut self, now: u64)
        ensures
            final(self)@ == old(self)@.readied(now),
    {
        proof {
            reveal(ViewModel::readied);
        }
        self.busy = true;
        let started: u64 = match self.turn_started {
            Some(s) => s,
            None => now,
        };
        self.turn_started = Some(started);
        if self.reasoning_started.is_none() {
            self.begin_reasoning_phase(started);
        }
    }
}

impl App {
    /// A session in a directory, with a stored one's turns shown again and the
    /// prompts of earlier sessions at hand.
    pub fn new(
        model_name: String,
        cwd: String,
        history: &Vec<Turn>,
        prompts: Vec<String>,
        now: u64,
        p: Palette,
    ) -> (r: Self)
        ensures
            r@ == (AppModel {
                view: ViewModel {
                    cwd: cwd@,
                    prompt_history: strings(prompts@),
                    ..restored(
                        blank_state(model_name@, now),
                        turn_views(history@),
                        history@.len(),
                        p,
                    ).0
                },
                cwd: cwd@,
                quit: false,
                live_tools: Seq::empty(),
                outcome: None,
                pending_submit: None,
                queued_prompts: Seq::empty(),
                send_queued_after_tool: false,
            }),
    {
        let mut view: ViewState = ViewState::new(model_name, now);
        restore_history(&mut view, history, p);
        view.cwd = cwd.clone();
        view.prompt_history = prompts;
        let live_tools: Vec<LiveTool> = Vec::new();
        let queued_prompts: Vec<String> = Vec::new();
        assert(live_views(live_tools@) =~= Seq::<LiveView>::empty());
        assert(strings(queued_prompts@) =~= Seq::<Seq<char>>::empty());
        App {
            view,
            cwd,
            quit: false,
            live_tools,
            outcome: None,
            pending_submit: None,
            queued_prompts,
            send_queued_after_tool: false,
        }
    }

    /// Start the queued prompt whose turn has come.
    fn start_queued(&mut self, now: u64, p: Palette) -> (r: Vec<Action>)
        ensures
            final(self)@ == old(self)@.with_queued(now, p),
            action_views(r@) == (if !old(self)@.view.busy && old(self)@.queued_prompts.len() > 0 {
                seq![ActionView::Remember(old(self)@.queued_prompts[0])]
            } else {
                Seq::<ActionView>::empty()
            }),
    {
        let ghost before = strings(self.queued_prompts@);
        if self.view.busy || self.queued_prompts.len() == 0 {
            return no_actions();
        }
        assert(before[0] == self.queued_prompts@[0]@);
        let prompt: String = self.queued_prompts.remove(0);
        assert(strings(self.queued_prompts@) =~= before.skip(1));
        self.view.record_prompt(prompt.as_str(), p);
        self.view.begin_turn_display(now);
        self.view.queued_messages = self.queued_prompts.len();
        self.send_queued_after_tool = false;
        self.view.queued_after_tool = false;
        one_action(Action::Remember(prompt))
    }

    fn apply_tool_end(
        &mut self,
        call_id: &str,
        tool: &str,
        result: &ToolResultBody,
        now: u64,
        p: Palette,
    ) -> (r: Vec<Action>)
        ensures
            (final(self)@, action_views(r@)) == old(self)@.after_call(
                call_id@,
                tool@,
                result@,
                now,
                p,
            ),
    {
        proof {
            reveal(AppModel::after_call);
        }
        end_call(&mut self.view, &mut self.live_tools, call_id, tool, result, now, p);
        if self.view.running == 0 && self.send_queued_after_tool {
            self.send_queued_after_tool = false;
            self.view.queued_after_tool = false;
            return one_action(Action::Cancel);
        }
        no_actions()
    }

    fn apply_turn_end(&mut self, failure: Option<String>, now: u64, p: Palette)
        ensures
            final(self)@ == old(self)@.after_turn(text_option(failure), now, p),
    {
        wind_up(&mut self.view, &mut self.live_tools, failure, now, p);
        assert(live_views(self.live_tools@) =~= Seq::<LiveView>::empty());
    }

    fn apply_ready(&mut self, now: u64, p: Palette) -> (r: Vec<Action>)
        ensures
            (final(self)@, action_views(r@)) == old(self)@.after_ready(now, p),
    {
        proof {
            reveal(AppModel::after_ready);
        }
        let r: Vec<Action> = self.start_queued(now, p);
        self.view.ready(now);
        r
    }

    fn apply_tool_start(&mut self, call: ToolCall, now: u64, p: Palette)
        ensures
            final(self)@ == old(self)@.after(EventView::ToolStart { call: call@ }, now, p).0,
    {
        let fields: CallFields = call_fields(call.arguments.as_str());
        let rows: Vec<Line> = call_lines(call.name.as_str(), &fields, call.arguments.as_str(), p);
        start_call(&mut self.view, &mut self.live_tools, call.id, call.name, rows, now, p);
    }

    /// Fold an event into the session.
    pub fn apply(&mut self, ev: AgentEvent, now: u64, p: Palette) -> (r: Vec<Action>)
        ensures
            (final(self)@, action_views(r@)) == old(self)@.after(ev@, now, p),
    {
        match ev {
            AgentEvent::ToolStart { call } => self.apply_tool_start(call, now, p),
            AgentEvent::ToolEnd { call_id, tool, result } => {
                return self.apply_tool_end(call_id.as_str(), tool.as_str(), &result, now, p);
            },
            AgentEvent::Outcome => self.apply_turn_end(None, now, p),
            AgentEvent::Error(e) => self.apply_turn_end(Some(e), now, p),
            AgentEvent::Ready => {
                return self.apply_ready(now, p);
            },
            AgentEvent::Idle => self.apply_turn_end(None, now, p),
            other => self.view.show_event(other, self.cwd.as_str(), now, p),
        }
        no_actions()
    }
}

/// However a turn ends, nothing runs afterwards: no call is in flight, nothing
/// streams, and the session is no longer busy.
pub proof fn a_turn_ends_completely(s: AppModel, ev: EventView, now: u64, p: Palette)
    requires
        ev is Outcome || ev is Error || ev is Idle,
    ensures
        ({
            let t = s.after(ev, now, p).0;
            &&& t.live_tools.len() == 0
            &&& !t.view.busy
            &&& t.view.running == 0
            &&& t.view.running_tool is None
            &&& t.view.turn_started is None
            &&& t.view.turn_file_changes.len() == 0
        }),
{
    reveal(ViewModel::wound_up);
}

} // verus!
