use ratatui::backend::TestBackend;
use ratatui::layout::{Constraint, Direction, Layout, Rect};
use ratatui::text::{Line as Row, Span as Run};
use ratatui::widgets::{Block, BorderType, Borders, Clear, Paragraph, Wrap};
use ratatui::{Frame, Terminal};
use subcode::chrome::{
    ask_lines, bottom_height, completion_popup, composer_rows, composer_scroll, content_area, ellipsize, harvest,
    logo_spinner_span, marathoning_label, menu_overlay_lines, mode_name, plural, right_align,
    still_thinking_line, welcome_layout, welcome_lines, welcome_logo_fits, StatusLabels, StreamRate,
};
use subcode::complete::{Completion, MenuKind};
use subcode::diff::word_diff_line;
use subcode::fit::{
    constrained_table_widths, full_width_turn_divider, line_width, responsive_content_lines,
    turn_divider_line, wrap_styled_spans,
};
use subcode::markdown::parse_blocks;
use subcode::menu::{
    Field, FieldKind, KeySource, MenuPage, MenuState, SessionInfo, Settings,
};
use subcode::screen::{Area, LiveKind};
use subcode::styled::{Color, Line, Span};
use subcode::theme::{loading_color, Palette, DEFAULT_LOGO};
use subcode::view::{
    parse_assistant_output, AgentMode, CacheRate, CompletionMenu, PendingAsk, Selection, ViewState,
};

const COLOR: Palette = Palette { no_color: false };
const SECOND: u64 = 1_000_000_000;
const MS: u64 = 1_000_000;
const NOW: u64 = 1_000_000 * SECOND;

fn state(model: &str) -> ViewState {
    let mut v = ViewState::new(model.to_string(), 0);
    v.location = "here".to_string();
    v
}

fn raw(s: &str) -> Line {
    Line::new(vec![Span::raw(s)])
}

fn text(l: &Line) -> String {
    l.spans.iter().map(|s| s.content.as_str()).collect()
}

fn texts(v: &[Line]) -> Vec<String> {
    v.iter().map(text).collect()
}

fn joined(spans: &[Span]) -> String {
    spans.iter().map(|s| s.content.as_str()).collect()
}

// ---- a painter of text alone ------------------------------------------------
fn row(l: &Line) -> Row<'static> {
    Row::from(l.spans.iter().map(|s| Run::raw(s.content.clone())).collect::<Vec<_>>())
}

fn rows(lines: &[Line]) -> Vec<Row<'static>> {
    lines.iter().map(row).collect()
}

fn area_of(r: Rect) -> Area {
    Area { x: r.x, y: r.y, width: r.width, height: r.height }
}

fn rect_of(a: Area) -> Rect {
    Rect { x: a.x, y: a.y, width: a.width, height: a.height }
}

fn count(n: u64) -> String {
    match n {
        n if n >= 1_000_000 => format!("{:.1}M", n as f64 / 1_000_000.0),
        n if n >= 1_000 => format!("{:.1}K", n as f64 / 1_000.0),
        n => format!("{n}"),
    }
}

fn labels(state: &ViewState, now: u64) -> StatusLabels {
    StatusLabels {
        tokens: count(state.context_tokens.unwrap_or(0)),
        cached: state.cache_hit_rate.map_or(String::new(), |r| {
            format!("{:.0}%", r.cached as f64 / r.prompt as f64 * 100.0)
        }),
        rate: match state.stream_rate(now) {
            StreamRate::Measured { chars, nanos } => {
                format!("{:.0}", chars as f64 / 4.0 / (nanos as f64 / 1e9))
            }
            _ => String::new(),
        },
    }
}

fn draw(frame: &mut Frame, state: &mut ViewState) {
    let whole = frame.area();
    if let Some(menu) = &state.menu_overlay {
        let area = rect_of(content_area(area_of(whole)));
        let block = Block::default().borders(Borders::ALL).title(" menu ");
        let inner = block.inner(area);
        frame.render_widget(block, area);
        let lines = menu_overlay_lines(menu, inner.height, NOW, COLOR);
        frame.render_widget(Paragraph::new(rows(&lines)).wrap(Wrap { trim: false }), inner);
        return;
    }
    let typed = joined(&state.composer_content_spans(COLOR));
    let need = composer_rows(&typed, whole.width.saturating_sub(2).max(1));
    let chunks = Layout::default()
        .direction(Direction::Vertical)
        .constraints([
            Constraint::Min(1),
            Constraint::Length(1),
            Constraint::Length(1),
            Constraint::Length(bottom_height(state.pending_ask.is_some(), need)),
            Constraint::Length(1),
        ])
        .split(whole);
    let thinking = still_thinking_line(NOW, state.thinking_started(), COLOR);
    let live = match state.live_kind() {
        LiveKind::Nothing => vec![],
        LiveKind::Tool => vec![state.tool_running_line(NOW, false, COLOR)],
        LiveKind::Thinking => vec![still_thinking_line(NOW, state.thinking_started(), COLOR)],
    };
    let welcome = state.welcome_card_visible();
    let shown = state.lay_out(area_of(chunks[0]), &live, &thinking, COLOR);
    let lines = if welcome { welcome_lines(DEFAULT_LOGO, COLOR) } else { shown.lines };
    let body = Paragraph::new(rows(&lines)).wrap(Wrap { trim: false });
    frame.render_widget(body.scroll((shown.scroll, 0)), chunks[0]);
    let status = content_area(area_of(chunks[2]));
    let left = state.status_spans(NOW, false, &labels(state, NOW), COLOR);
    let line = right_align(left, state.right_hint(NOW, COLOR), status.width);
    frame.render_widget(Paragraph::new(row(&line)), rect_of(status));
    if let Some(ask) = &state.pending_ask {
        let block = Block::default().borders(Borders::ALL).title("permission");
        frame.render_widget(Paragraph::new(rows(&ask_lines(ask, COLOR))).block(block), chunks[3]);
    } else {
        let block = Block::default().borders(Borders::ALL).border_type(BorderType::Rounded);
        let line = state.composer_line(NOW, false, COLOR);
        let scroll = composer_scroll(&line, area_of(chunks[3]));
        let typed = Paragraph::new(row(&line)).wrap(Wrap { trim: false }).block(block);
        frame.render_widget(typed.scroll((scroll, 0)), chunks[3]);
        if let Some(menu) = &state.menu {
            if let Some(popup) = completion_popup(menu, area_of(chunks[3]), COLOR) {
                let block = Block::default().borders(Borders::ALL).title(popup.title);
                frame.render_widget(Clear, rect_of(popup.area));
                let list = Paragraph::new(rows(&popup.lines)).block(block);
                frame.render_widget(list, rect_of(popup.area));
            }
        }
    }
    frame.render_widget(Paragraph::new(row(&state.model_footer(COLOR))), chunks[4]);
    let buffer = frame.buffer_mut();
    state.selection_text = match state.selection {
        None => None,
        Some(selection) => {
            let grid: Vec<Vec<String>> = (0..whole.height)
                .map(|y| (0..whole.width).map(|x| buffer[(x, y)].symbol().to_string()).collect())
                .collect();
            harvest(&grid, &selection, whole.width)
        }
    };
}

fn rendered_sized(state: &mut ViewState, width: u16, height: u16) -> String {
    let mut terminal = Terminal::new(TestBackend::new(width, height)).unwrap();
    terminal.draw(|f| draw(f, state)).unwrap();
    let buf = terminal.backend().buffer();
    let w = buf.area.width as usize;
    let mut out = String::new();
    for (i, cell) in buf.content().iter().enumerate() {
        out.push_str(cell.symbol());
        if (i + 1) % w == 0 {
            out.push('\n');
        }
    }
    out
}

fn rendered(state: &mut ViewState) -> String {
    rendered_sized(state, 60, 10)
}

// ---- the menu ---------------------------------------------------------------
fn field(name: &str, kind: FieldKind, value: &str) -> Field {
    Field {
        name: name.to_string(),
        help: format!("help for {name}"),
        env: format!("SC_{name}"),
        kind,
        value: value.to_string(),
        overridden: false,
        next: None,
        previous: None,
    }
}

fn sample_menu(page: MenuPage) -> MenuState {
    let mk = |id: &str, cwd: &str, age: u64, prompt: &str| SessionInfo {
        path: format!("/s/{id}.jsonl"),
        id: id.to_string(),
        cwd: cwd.to_string(),
        model: "m".to_string(),
        modified: NOW.saturating_sub(age * SECOND),
        first_prompt: Some(prompt.to_string()),
    };
    let sessions = vec![
        mk(
            "a",
            "/home/d/subconscious-code",
            120,
            "add a rotating logo to the cli",
        ),
        mk("b", "/home/d/subconscious-code", 3600, "fix the base url"),
        mk("c", "/home/d/dotfiles", 260_000, "why is zsh startup slow"),
    ];
    let settings = Settings {
        fields: vec![
            field("model", FieldKind::Model, "gw-glm-5.2"),
            field("base_url", FieldKind::Text, "https://x"),
            field("default_mode", FieldKind::Choice, "default"),
        ],
        models: vec!["gw-glm-5.2".to_string()],
        api_key_env: "SC_API_KEY".to_string(),
        key_source: KeySource::Unset,
    };
    let mut menu = MenuState::new(sessions, settings);
    menu.page = page;
    menu
}

fn menu_screen(page: MenuPage) -> String {
    let mut state = state("gw-glm-5.2");
    state.menu_overlay = Some(sample_menu(page));
    rendered_sized(&mut state, 78, 18)
}

#[test]
fn menu_root_lists_projects_and_settings() {
    let screen = menu_screen(MenuPage::Root);
    assert!(screen.contains("Projects"), "projects entry: {screen}");
    assert!(screen.contains("2 projects"), "project count: {screen}");
    assert!(screen.contains("Settings"), "settings entry: {screen}");
    assert!(screen.contains("↵ select"), "key hints: {screen}");
}

#[test]
fn menu_root_lists_change_api_key() {
    let screen = menu_screen(MenuPage::Root);
    assert!(screen.contains("Change API key"), "entry: {screen}");
    assert!(
        screen.contains("(set via $")
            || screen.contains("(saved, ~/.sc/key)")
            || screen.contains("(unset)"),
        "source indicator: {screen}"
    );
}

#[test]
fn dragging_across_lines_copies_what_is_on_screen() {
    let mut state = state("gw-glm-5.2");
    state.transcript.push(raw("alpha one"));
    state.transcript.push(raw("beta two"));
    let screen = rendered_sized(&mut state, 40, 12);
    let lines: Vec<&str> = screen.lines().collect();
    let (ay, ax) = lines
        .iter()
        .enumerate()
        .find_map(|(y, r)| r.find("alpha one").map(|x| (y as u16, x as u16)))
        .expect("first line on screen");
    let (by, bx) = lines
        .iter()
        .enumerate()
        .find_map(|(y, r)| r.find("beta two").map(|x| (y as u16, x as u16)))
        .expect("second line on screen");
    state.selection = Some(Selection {
        anchor: (ax, ay),
        head: (bx + "beta two".len() as u16 - 1, by),
    });
    let _ = rendered_sized(&mut state, 40, 12);
    assert_eq!(
        state.selection_text.as_deref(),
        Some("alpha one\nbeta two"),
        "the harvested text is what was on screen, unpadded"
    );
}

#[test]
fn a_click_harvests_no_text() {
    let mut state = state("gw-glm-5.2");
    state.transcript.push(raw("alpha one"));
    state.selection = Some(Selection {
        anchor: (2, 2),
        head: (2, 2),
    });
    let _ = rendered_sized(&mut state, 40, 12);
    assert!(state.selection_text.is_none());
}

#[test]
fn mouse_capture_does_not_add_status_chrome() {
    let mut state = state("gw-glm-5.2");
    let released = state.right_hint(NOW, COLOR);
    state.mouse_capture = true;
    let captured = state.right_hint(NOW, COLOR);
    assert_eq!(joined(&captured), joined(&released));
    assert!(!joined(&captured).contains("mouse"));
}

#[test]
fn menu_api_key_editor_masks_the_typed_key() {
    let mut state = state("gw-glm-5.2");
    let mut menu = sample_menu(MenuPage::Root);
    menu.begin_api_key_edit();
    menu.editing = Some("sk-secret-123".into());
    state.menu_overlay = Some(menu);
    let screen = rendered_sized(&mut state, 78, 18);
    assert!(
        !screen.contains("sk-secret-123"),
        "the key must never be rendered: {screen}"
    );
    assert!(
        screen.contains(&"•".repeat("sk-secret-123".len())),
        "expected one bullet per character: {screen}"
    );
    assert!(screen.contains("api key · ↵ save"), "editor hint: {screen}");
}

#[test]
fn menu_projects_page_shows_grouped_directories() {
    let screen = menu_screen(MenuPage::Projects);
    assert!(
        screen.contains("subconscious-code"),
        "project name: {screen}"
    );
    assert!(screen.contains("2 sessions"), "session count: {screen}");
    assert!(screen.contains("dotfiles"), "second project: {screen}");
    assert!(screen.contains("1 session"), "singular for one: {screen}");
}

#[test]
fn menu_sessions_page_labels_by_prompt_and_offers_new() {
    let screen = menu_screen(MenuPage::Sessions("/home/d/subconscious-code".to_string()));
    assert!(
        screen.contains("add a rotating logo"),
        "first prompt as label: {screen}"
    );
    assert!(
        screen.contains("fix the base url"),
        "older session listed: {screen}"
    );
    assert!(
        screen.contains("+ New session here"),
        "new-session row: {screen}"
    );
    assert!(
        !screen.contains("zsh startup"),
        "only this project's sessions: {screen}"
    );
}

#[test]
fn menu_settings_page_shows_resolved_values() {
    let screen = menu_screen(MenuPage::Settings);
    assert!(screen.contains("model"), "model field: {screen}");
    assert!(screen.contains("base_url"), "base_url field: {screen}");
    assert!(screen.contains("default_mode"), "mode field: {screen}");
    assert!(
        screen.contains("default"),
        "an unset mode still renders its effective value: {screen}"
    );
    assert!(screen.contains("↵ edit"), "edit hint: {screen}");
}

#[test]
fn menu_replaces_the_normal_chrome_while_open() {
    let screen = menu_screen(MenuPage::Root);
    assert!(
        !screen.contains("compose"),
        "composer hidden behind the modal: {screen}"
    );
    assert!(
        !screen.contains("Ctrl+C quit"),
        "status bar hidden: {screen}"
    );
}

fn menu_with_models(models: &[&str]) -> MenuState {
    let mut m = sample_menu(MenuPage::Settings);
    m.settings.fields[0].value = models[0].to_string();
    m.settings.models = models.iter().map(|s| s.to_string()).collect();
    m
}

#[test]
fn settings_model_row_shows_roster_position() {
    let mut state = state("m");
    state.menu_overlay = Some(menu_with_models(&["a/one", "b/two", "c/three"]));
    let screen = rendered_sized(&mut state, 78, 18);
    assert!(screen.contains("a/one"), "active model shown: {screen}");
    assert!(screen.contains("[1/3]"), "roster position shown: {screen}");
    assert!(screen.contains("d remove model"), "removal hint: {screen}");
}

#[test]
fn settings_model_row_omits_position_for_a_lone_model() {
    let mut state = state("m");
    state.menu_overlay = Some(menu_with_models(&["only/one"]));
    let screen = rendered_sized(&mut state, 78, 18);
    assert!(screen.contains("only/one"), "model shown: {screen}");
    assert!(
        !screen.contains("[1/1]"),
        "no position for a lone model: {screen}"
    );
}

#[test]
fn settings_editor_shows_the_typed_buffer() {
    let mut m = menu_with_models(&["a/one", "b/two"]);
    m.editing = Some("new/model".into());
    let mut state = state("m");
    state.menu_overlay = Some(m);
    let screen = rendered_sized(&mut state, 78, 18);
    assert!(screen.contains("new/model"), "typed buffer shown: {screen}");
    assert!(screen.contains("↵ save"), "save hint: {screen}");
    assert!(
        !screen.contains("d remove model"),
        "nav hints hidden while typing: {screen}"
    );
}

// ---- the status line --------------------------------------------------------
#[test]
fn status_bar_names_every_mode() {
    for (mode, label) in [
        (AgentMode::Ask, "ask"),
        (AgentMode::Default, "default"),
        (AgentMode::AcceptEdits, "accept-edits"),
        (AgentMode::Plan, "plan"),
        (AgentMode::Auto, "auto"),
    ] {
        let mut state = state("m");
        state.mode = mode;
        state.transcript.push(raw("> hi"));
        let screen = rendered_sized(&mut state, 78, 8);
        assert!(
            screen.contains(label),
            "expected {label:?} in the status bar: {screen}"
        );
        assert_eq!(mode_name(mode), label);
    }
}

#[test]
fn status_bar_never_says_bypass() {
    let mut state = state("m");
    state.mode = AgentMode::Auto;
    state.transcript.push(raw("> hi"));
    let screen = rendered_sized(&mut state, 78, 8);
    assert!(
        !screen.contains("bypass"),
        "the old name must not appear: {screen}"
    );
}

#[test]
fn composer_box_has_no_title() {
    let mut state = state("m");
    state.transcript.push(raw("> hi"));
    let screen = rendered_sized(&mut state, 78, 8);
    assert!(
        !screen.contains("compose"),
        "composer title removed: {screen}"
    );
    assert!(
        screen.contains("type a prompt"),
        "placeholder still identifies it: {screen}"
    );
}

#[test]
fn status_line_shows_state_location_and_mode() {
    let mut state = state("mock-model");
    state.mode = AgentMode::Plan;
    state.location = "subconscious-code (main)".into();
    state.busy = true;
    let screen = rendered_sized(&mut state, 78, 10);
    assert!(screen.contains("working"), "busy state: {screen}");
    assert!(screen.contains("plan"), "mode: {screen}");
    assert!(
        screen.contains("subconscious-code (main)"),
        "location: {screen}"
    );
    let status = screen
        .lines()
        .find(|line| line.contains("subconscious-code (main)"))
        .expect("status row");
    assert!(!status.contains("mock-model"), "status row: {status}");
}

#[test]
fn idle_status_omits_the_state_indicator() {
    let mut state = state("m");
    state.location = "subconscious-code".into();
    let screen = rendered(&mut state);
    let status = screen
        .lines()
        .find(|line| line.contains("subconscious-code"))
        .expect("status row");
    assert!(!status.contains("● idle"), "idle indicator: {status}");
    assert!(
        status.trim_start().starts_with("subconscious-code"),
        "location should be the first field: {status}"
    );
}

#[test]
fn status_line_shows_context_size() {
    let mut state = state("m");
    state.context_tokens = Some(2_748_220);
    state.context_tokens_estimated = true;
    let screen = rendered(&mut state);
    assert!(
        screen.contains("ctx: ~2.7M tok"),
        "estimated tokens: {screen}"
    );
    assert!(
        !screen.contains("12.1M"),
        "character count removed: {screen}"
    );
}

#[test]
fn status_line_omits_context_before_the_first_request() {
    let mut state = state("m");
    assert!(!rendered(&mut state).contains("ctx:"));
}

#[test]
fn ask_prompt_replaces_the_composer() {
    let mut state = state("m");
    state.pending_ask = Some(PendingAsk {
        id: 1,
        tool: "Edit".into(),
        command: None,
        reason: "Edit requires confirmation".into(),
    });
    let screen = rendered(&mut state);
    assert!(screen.contains("permission"), "ask block titled: {screen}");
    assert!(
        screen.contains("Edit requires confirmation"),
        "reason: {screen}"
    );
    assert!(screen.contains("[y]once"), "answer keys: {screen}");
}

// ---- reasoning --------------------------------------------------------------
#[test]
fn live_reasoning_is_hidden_beside_the_answer() {
    let mut state = state("m");
    state.busy = true;
    let started = NOW;
    state.begin_reasoning_phase(started);
    state.current_reasoning = "deliberating the approach".into();
    state.finish_reasoning(started + 390 * MS);
    state.current_text = "the answer".into();
    let screen = rendered(&mut state);
    assert!(
        screen.contains("thought for 0.39s"),
        "completed live phase is one timed row: {screen}"
    );
    assert!(
        !screen.contains("deliberating"),
        "live reasoning content stays hidden: {screen}"
    );
    assert!(screen.contains("the answer"), "answer body: {screen}");
}

#[test]
fn flush_text_collapses_reasoning_to_a_timed_expandable_summary() {
    let mut state = state("m");
    let started = SECOND;
    state.begin_reasoning_phase(started);
    state.current_reasoning = "deliberating the approach\nconsidering options\n".into();
    state.finish_reasoning(started + 2_340 * MS);
    state.current_text = "the answer".into();
    state.flush_text_at(started + 9 * SECOND, COLOR);
    let collapsed = texts(&state.transcript);
    assert_eq!(collapsed[0], "▸ thought for 2.34s", "hundredth precision");
    assert!(
        collapsed.iter().all(|l| !l.contains("considering options")),
        "reasoning body starts collapsed: {collapsed:?}"
    );
    assert!(
        collapsed.iter().any(|l| l.contains("the answer")),
        "answer kept"
    );
    let toggle = state
        .toggle_latest_reasoning(COLOR)
        .expect("a retained reasoning block");
    assert!(toggle.expanded);
    let expanded = texts(&state.transcript);
    assert_eq!(expanded[0], "▾ thought for 2.34s");
    assert!(
        expanded.iter().any(|l| l.contains("considering options")),
        "full reasoning restored: {expanded:?}"
    );
    let toggle = state
        .toggle_latest_reasoning(COLOR)
        .expect("block collapses again");
    assert!(!toggle.expanded);
    assert_eq!(
        texts(&state.transcript),
        collapsed,
        "collapse restores the compact transcript"
    );
}

#[test]
fn flush_text_collapses_reasoning_only_to_one_timed_line() {
    let mut state = state("m");
    let started = SECOND;
    state.begin_reasoning_phase(started);
    state.current_reasoning = "thinking hard about it\n".into();
    state.flush_text_at(started + 70 * MS, COLOR);
    let lines = texts(&state.transcript);
    assert_eq!(lines.len(), 1, "just the summary, no answer: {lines:?}");
    assert_eq!(lines[0], "▸ thought for 0.07s");
}

#[test]
fn clicking_a_rendered_thought_label_toggles_that_exact_block() {
    let mut state = state("m");
    let started = SECOND;
    state.begin_reasoning_phase(started);
    state.current_reasoning = "first private thought".into();
    state.current_text = "first answer".into();
    state.flush_text_at(started + 390 * MS, COLOR);
    let second = started + SECOND;
    state.begin_reasoning_phase(second);
    state.current_reasoning = "second private thought".into();
    state.current_text = "second answer".into();
    state.flush_text_at(second + 120 * MS, COLOR);
    let screen = rendered_sized(&mut state, 60, 20);
    assert_eq!(
        state.reasoning_hitboxes.len(),
        2,
        "both visible labels are clickable"
    );
    let first = state.reasoning_hitboxes[0];
    let rendered_row = screen.lines().nth(first.y as usize).unwrap_or("");
    assert!(
        rendered_row.contains("thought for 0.39s"),
        "hitbox is on label: {rendered_row}"
    );
    assert!(
        state
            .toggle_reasoning_at(first.x.saturating_add(first.width), first.y, COLOR)
            .is_none(),
        "the cell just outside the label is not clickable"
    );
    let toggle = state
        .toggle_reasoning_at(first.x, first.y, COLOR)
        .expect("clicking the label expands it");
    assert!(toggle.expanded);
    assert!(
        state.reasoning_blocks[0].expanded,
        "clicked first block expanded"
    );
    assert!(
        !state.reasoning_blocks[1].expanded,
        "second block was untouched"
    );
    assert!(
        texts(&state.transcript)
            .iter()
            .any(|line| line.contains("first private thought")),
        "the clicked thought body is restored"
    );
}

#[test]
fn clicking_a_thought_expands_down_without_moving_its_screen_row() {
    let mut state = state("m");
    state
        .transcript
        .extend([raw("older one"), raw("older two"), raw("older three")]);
    let started = SECOND;
    state.begin_reasoning_phase(started);
    state.current_reasoning = "private line one\nprivate line two".into();
    state.current_text = "answer".into();
    state.finish_reasoning(started + 240 * MS);
    state.flush_text_at(started + 300 * MS, COLOR);
    state.follow = false;
    state.scroll_top = 0;
    let before = rendered_sized(&mut state, 60, 18);
    let row_before = before
        .lines()
        .position(|line| line.contains("thought for 0.24s"))
        .expect("thought is visible before the click");
    state.toggle_expandable_at(0, row_before as u16, COLOR);
    let after = rendered_sized(&mut state, 60, 18);
    let row_after = after
        .lines()
        .position(|line| line.contains("thought for 0.24s"))
        .expect("thought remains visible after expansion");
    assert_eq!(row_after, row_before, "the clicked row stays stationary");
    assert!(
        after
            .lines()
            .skip(row_after + 1)
            .any(|line| line.contains("private line one")),
        "the retained body grows below the summary: {after}"
    );
    assert!(!state.follow, "expansion holds the viewport");
    assert_eq!(state.scroll_top, 0, "the prior top is preserved");
}

#[test]
fn clicking_a_failed_tool_row_expands_and_recovers_the_entire_call() {
    let mut state = state("m");
    state.transcript = vec![
        raw("> run it"),
        raw("▸ Bash  cargo test --workspace"),
        raw("after"),
    ];
    state.replace_with_tool_block(
        1,
        1,
        raw("▸ Bash · 0.39s · failed"),
        raw("▾ Bash · 0.39s · failed"),
        vec![
            raw("▸ Bash  cargo test --workspace"),
            raw("  ✗ error"),
            raw("  │ test one failed"),
            raw("  │ assertion mismatch"),
        ],
    );
    let screen = rendered_sized(&mut state, 60, 16);
    assert_eq!(state.tool_hitboxes.len(), 1, "completed row is clickable");
    let hitbox = state.tool_hitboxes[0];
    let rendered_row = screen.lines().nth(hitbox.y as usize).unwrap_or("");
    assert!(
        rendered_row.contains("Bash · 0.39s"),
        "hitbox is on tool row: {rendered_row}"
    );
    assert!(
        state
            .toggle_tool_at(hitbox.x.saturating_add(hitbox.width), hitbox.y)
            .is_none(),
        "the cell just outside the row is not clickable"
    );
    let toggle = state
        .toggle_tool_at(hitbox.x, hitbox.y)
        .expect("clicking the tool expands it");
    assert!(toggle.expanded);
    assert_eq!(
        texts(&state.transcript),
        [
            "> run it",
            "▾ Bash · 0.39s · failed",
            "▸ Bash  cargo test --workspace",
            "  ✗ error",
            "  │ test one failed",
            "  │ assertion mismatch",
            "after",
        ],
        "the command and complete result return in place"
    );
    let screen = rendered_sized(&mut state, 60, 16);
    let hitbox = state.tool_hitboxes[0];
    assert!(screen
        .lines()
        .nth(hitbox.y as usize)
        .unwrap_or("")
        .contains("▾ Bash"));
    let toggle = state
        .toggle_tool_at(hitbox.x, hitbox.y)
        .expect("clicking again collapses it");
    assert!(!toggle.expanded);
    assert_eq!(state.transcript.len(), 3);
}

#[test]
fn tool_expansion_reindexes_a_later_thought_block() {
    let mut state = state("m");
    state.transcript.push(raw("live tool row"));
    state.replace_with_tool_block(
        0,
        1,
        raw("▸ Read · 0.12s"),
        raw("▾ Read · 0.12s"),
        vec![raw("▸ Read  README.md"), raw("  │ contents")],
    );
    let started = SECOND;
    state.begin_reasoning_phase(started);
    state.current_reasoning = "later thought".into();
    state.current_text = "later answer".into();
    state.flush_text_at(started + 50 * MS, COLOR);
    let original_index = state.reasoning_blocks[0].summary_index;
    state.toggle_tool(0).expect("tool expands");
    assert_eq!(
        state.reasoning_blocks[0].summary_index,
        original_index + 2,
        "the later thought follows the inserted tool body"
    );
    state.toggle_tool(0).expect("tool collapses");
    assert_eq!(state.reasoning_blocks[0].summary_index, original_index);
}

#[test]
fn hiding_a_successful_tool_reindexes_later_failed_tools_and_thoughts() {
    let mut state = state("m");
    state.transcript = vec![raw("live success"), raw("live failure")];
    state.replace_with_tool_block(
        1,
        1,
        raw("▸ Bash · 0.12s · failed"),
        raw("▾ Bash · 0.12s · failed"),
        vec![raw("▸ Bash  false"), raw("  │ exit 1")],
    );
    let started = SECOND;
    state.begin_reasoning_phase(started);
    state.current_reasoning = "later thought".into();
    state.current_text = "later answer".into();
    state.flush_text_at(started + 50 * MS, COLOR);
    assert_eq!(state.tool_blocks[0].summary_index, 1);
    assert_eq!(state.reasoning_blocks[0].summary_index, 2);
    state.remove_transcript_range(0, 1);
    assert_eq!(state.tool_blocks[0].summary_index, 0);
    assert_eq!(state.reasoning_blocks[0].summary_index, 1);
}

#[test]
fn reasoning_only_stream_shows_one_content_free_marathoning_row() {
    let mut state = state("m");
    state.busy = true;
    state.current_reasoning = "private chain of thought must stay hidden".into();
    let screen = rendered(&mut state);
    let marathoning = screen
        .lines()
        .find(|line| line.contains("Marathoning ·"))
        .expect("marathoning row");
    assert!(
        !marathoning.contains(DEFAULT_LOGO),
        "marathoning row no longer carries the logo: {marathoning}"
    );
    assert!(
        screen.contains("Marathoning ·") && screen.contains('s'),
        "clear timed activity label: {screen}"
    );
    assert!(
        !screen.contains("private chain"),
        "streamed reasoning content is never rendered: {screen}"
    );
    assert!(
        !screen.contains('▋'),
        "the animated thinking logo must not get a second blinking cursor: {screen}"
    );
}

#[test]
fn tiny_logo_spinner_advances_in_45_milliseconds() {
    let started = SECOND;
    let first = logo_spinner_span(started, Some(started), true, COLOR);
    let next = logo_spinner_span(started + 45 * MS, Some(started), true, COLOR);
    assert_ne!(
        first.content, next.content,
        "one-cell rotation advances rapidly"
    );
    assert_ne!(
        loading_color(0),
        loading_color(1),
        "each loading phase also advances through the warm color ramp"
    );
}

#[test]
fn streaming_answer_has_no_trailing_cursor() {
    let mut state = state("m");
    state.busy = true;
    state.current_text = "answer in progress".into();
    let screen = rendered(&mut state);
    assert!(
        screen.contains("answer in progress"),
        "stream renders: {screen}"
    );
    assert!(!screen.contains('▋'), "no output cursor: {screen}");
}

#[test]
fn transcript_and_streaming_text_render() {
    let mut state = state("m");
    state.transcript.push(raw("-> Read README.md"));
    state.transcript.push(raw("<- Read: # rc"));
    state.current_text = "streaming answer".into();
    let screen = rendered(&mut state);
    assert!(
        screen.contains("-> Read README.md"),
        "tool start line: {screen}"
    );
    assert!(
        screen.contains("streaming answer"),
        "in-progress text: {screen}"
    );
}

// ---- fitting ----------------------------------------------------------------
#[test]
fn oversized_markdown_table_uses_responsive_rows_without_broken_borders() {
    let table = parse_blocks(
        "| Crate | State |\n|---|---|\n| `runtime` | Declares cache, sampler, and scheduler modules that do not exist yet |",
        COLOR,
    );
    assert!(
        table.iter().all(|line| line_width(line) > 40),
        "fixture must exercise the narrow path"
    );
    let narrow: Vec<Line> = table
        .iter()
        .flat_map(|line| responsive_content_lines(line.clone(), 40))
        .collect();
    let text = texts(&narrow);
    assert!(
        narrow.iter().all(|line| line_width(line) == 40),
        "every physical table row fits exactly: {text:?}"
    );
    assert!(
        text[0].starts_with('┌'),
        "top border remains boxed: {text:?}"
    );
    assert!(text[1].starts_with("│ Crate"), "boxed header: {text:?}");
    assert!(
        text[2].starts_with('├'),
        "middle border remains boxed: {text:?}"
    );
    assert!(
        text[3..text.len() - 1]
            .iter()
            .all(|row| row.starts_with('│') && row.ends_with('│')),
        "wrapped body stays inside the box: {text:?}"
    );
    assert!(
        text.last().is_some_and(|row| row.starts_with('└')),
        "bottom border remains boxed: {text:?}"
    );
    let wide = table
        .iter()
        .flat_map(|line| responsive_content_lines(line.clone(), 200))
        .collect::<Vec<_>>();
    assert_eq!(wide, table, "a table that fits keeps its full box");
}

#[test]
fn assistant_gutter_does_not_break_responsive_four_column_tables() {
    let source = "| Path | Type | Crate / Name | Purpose |\n\
|------|------|-------------|---------|\n\
| `qwen38-metal/` | workspace | — | From-scratch Qwen3.8-27B inference engine (Rust + MSL, M3 Pro target) |\n\
| `crates/kernels/src/lib.rs` | file | — | Kernel-name consts: rmsnorm, rope, mrope, gqa_fwd, gdn_fwd, swiglu, matmul_row, dequant_gemv |";
    let table = parse_assistant_output(source, COLOR);
    let raw_top = text(&table[0]);
    assert!(
        raw_top.starts_with("✻ ┌"),
        "fixture reproduces the logo-prefixed top border: {raw_top}"
    );
    let narrow: Vec<Line> = table
        .into_iter()
        .flat_map(|line| responsive_content_lines(line, 80))
        .collect();
    let text = texts(&narrow);
    assert!(
        narrow.iter().all(|line| line_width(line) == 80),
        "logo + constrained box fills the viewport: {text:?}"
    );
    assert!(text[0].starts_with("✻ ┌"), "top border remains: {text:?}");
    assert!(
        text[1].starts_with("  │ Path"),
        "header keeps the shared assistant gutter and box: {:?}",
        text[1]
    );
    let body = &text[3..text.len() - 1];
    assert!(
        body.iter().all(|row| {
            (row.starts_with("  │") && row.ends_with('│')) || row.starts_with("  ├")
        }),
        "every wrapped body row and separator stays indented and boxed: {text:?}"
    );
    assert_eq!(
        body.iter().filter(|row| row.starts_with("  ├")).count(),
        1,
        "the two data rows have a horizontal separator: {text:?}"
    );
    let separator_columns = |row: &str| {
        row.chars()
            .enumerate()
            .filter_map(|(column, ch)| if ch == '│' { Some(column) } else { None })
            .collect::<Vec<_>>()
    };
    let expected = separator_columns(&text[1]);
    for row in body.iter().filter(|row| row.starts_with("  │")) {
        assert_eq!(separator_columns(row), expected, "aligned cells: {row}");
    }
}

#[test]
fn wrapped_assistant_prose_keeps_the_two_cell_hanging_indent() {
    let line = parse_assistant_output(
        "This sentence is deliberately long enough to wrap over several terminal rows.",
        COLOR,
    )
    .remove(0);
    let wrapped = responsive_content_lines(line, 24);
    let text = texts(&wrapped);
    assert!(text.len() > 1, "fixture wraps: {text:?}");
    assert!(text[0].starts_with("✻ "), "first row keeps logo: {text:?}");
    assert!(
        text.iter().skip(1).all(|row| row.starts_with("  ")),
        "continuations align after the logo: {text:?}"
    );
    assert!(wrapped.iter().all(|line| line_width(line) <= 24));
}

#[test]
fn assistant_output_uses_the_logo_then_a_matching_two_cell_gutter() {
    assert_eq!(DEFAULT_LOGO, "✻", "one-cell reduction of logo.svg");
    let lines = parse_assistant_output("\nfirst line\nsecond line", COLOR);
    let text = texts(&lines);
    assert_eq!(text[0], "", "leading whitespace stays unbranded");
    assert_eq!(text[1], "✻ first line", "tiny logo prefixes output");
    assert_eq!(
        text[2], "  second line",
        "later output aligns after the marker"
    );
}

#[test]
fn wide_characters_count_their_cells() {
    assert_eq!(line_width(&raw("漢字")), 4);
    let rows = wrap_styled_spans(&[Span::raw("漢字漢字")], 5);
    assert_eq!(rows.iter().map(|r| joined(r)).collect::<Vec<_>>(), ["漢字", "漢字"]);
    assert_eq!(constrained_table_widths(&[10, 50], 40).map(|w| w.len()), Some(2));
    assert_eq!(constrained_table_widths(&[10, 50], 4), None);
}

#[test]
fn scroll_up_shows_older_lines_and_indicator() {
    let mut state = state("m");
    for i in 0..20 {
        state.transcript.push(raw(&format!("line {i}")));
    }
    let screen = rendered(&mut state);
    assert!(
        screen.contains("line 19"),
        "follow shows the bottom: {screen}"
    );
    assert!(
        !screen.contains("line 0"),
        "top hidden when following: {screen}"
    );
    state.follow = false;
    state.scroll_top = 0;
    let screen = rendered(&mut state);
    assert!(
        screen.contains("line 0"),
        "scrolled to top shows oldest: {screen}"
    );
    assert!(
        !screen.contains("line 19"),
        "bottom hidden when scrolled up: {screen}"
    );
    assert!(
        screen.contains("↑"),
        "status flags the scroll state: {screen}"
    );
}

#[test]
fn markdown_and_diff_render_in_the_transcript() {
    let mut state = state("m");
    state
        .transcript
        .extend(parse_blocks("# Heading\n\nsome **bold** text", COLOR));
    state
        .transcript
        .push(word_diff_line("old word", "new word", COLOR));
    let screen = rendered(&mut state);
    assert!(screen.contains("Heading"), "heading: {screen}");
    assert!(screen.contains("bold"), "bold: {screen}");
    assert!(
        screen.contains("oldnew"),
        "diff interleaves old+new: {screen}"
    );
    assert!(screen.contains("word"), "diff keeps shared word: {screen}");
}

// ---- the composer -----------------------------------------------------------
#[test]
fn completion_menu_renders_candidates_and_selection() {
    let mut state = state("m");
    state.composer = "/c".into();
    state.menu = Some(CompletionMenu {
        completion: Completion {
            kind: MenuKind::Slash,
            replace_start: 0,
            candidates: vec!["/clear".into(), "/mode".into()],
        },
        selected: 0,
    });
    let screen = rendered(&mut state);
    assert!(screen.contains("commands"), "menu title: {screen}");
    assert!(screen.contains("/clear"), "first candidate: {screen}");
    assert!(screen.contains("/mode"), "second candidate: {screen}");
    assert!(screen.contains("▶"), "selection marker: {screen}");
}

#[test]
fn completion_menu_scrolls_to_keep_selection_visible() {
    let mut state = state("m");
    state.composer = "/".into();
    state.menu = Some(CompletionMenu {
        completion: Completion {
            kind: MenuKind::Slash,
            replace_start: 0,
            candidates: (0..10).map(|i| format!("/command-{i}")).collect(),
        },
        selected: 8,
    });
    let screen = rendered_sized(&mut state, 60, 14);
    assert!(
        screen.lines().any(|line| line.contains("▶ /command-8")),
        "selected command stays visible: {screen}"
    );
    assert!(
        screen.contains("/command-1"),
        "window advances one row: {screen}"
    );
    assert!(
        !screen.contains("/command-0"),
        "old rows scroll out: {screen}"
    );
}

#[test]
fn completion_menu_empty_candidates_renders_nothing() {
    let mut state = state("m");
    state.composer = "@zzz".into();
    state.menu = Some(CompletionMenu {
        completion: Completion {
            kind: MenuKind::File,
            replace_start: 0,
            candidates: Vec::new(),
        },
        selected: 0,
    });
    let screen = rendered(&mut state);
    assert!(
        !screen.contains("files"),
        "no menu for empty candidates: {screen}"
    );
    assert!(!screen.contains("commands"), "no menu title: {screen}");
}

#[test]
fn follow_keeps_newest_line_visible_when_wrapping_overflows() {
    let mut state = state("m");
    state.transcript.push(raw(&"x".repeat(60 * 8)));
    state.transcript.push(raw("NEWEST"));
    let screen = rendered(&mut state);
    assert!(
        screen.contains("NEWEST"),
        "newest line must be visible (not clipped) when wrapping overflows: {screen}"
    );
}

#[test]
fn composer_placeholder_when_empty() {
    let mut state = state("m");
    let screen = rendered(&mut state);
    assert!(
        screen.contains("type a prompt"),
        "placeholder shown when empty: {screen}"
    );
    state.composer = "hello".into();
    let screen = rendered(&mut state);
    assert!(
        !screen.contains("type a prompt"),
        "no placeholder once typing: {screen}"
    );
    assert!(screen.contains("hello"), "typed text renders: {screen}");
}

#[test]
fn composer_spans_the_full_terminal_width() {
    let mut state = state("m");
    state.transcript.push(raw("> hello"));
    let screen = rendered_sized(&mut state, 120, 10);
    let top_border = screen
        .lines()
        .find(|line| line.starts_with('╭') && line.ends_with('╮'))
        .unwrap_or_else(|| panic!("full-width composer border missing: {screen}"));
    assert_eq!(top_border.chars().count(), 120, "composer width: {screen}");
    assert!(
        screen
            .lines()
            .any(|line| line.starts_with('╰') && line.ends_with('╯')),
        "composer has rounded bottom corners: {screen}"
    );
}

#[test]
fn turn_divider_spans_the_full_terminal_width() {
    let mut state = state("m");
    state
        .transcript
        .push(turn_divider_line("12.4s", 0, 0, COLOR));
    let screen = rendered_sized(&mut state, 120, 10);
    let divider = screen
        .lines()
        .find(|line| line.contains("worked for 12.4s"))
        .unwrap_or_else(|| panic!("turn divider missing: {screen}"));
    assert_eq!(divider.chars().count(), 120, "divider width: {divider:?}");
    assert!(
        divider.starts_with("─ worked for 12.4s · 0 lines changed ─"),
        "left-aligned duration: {divider:?}"
    );
    assert!(divider.contains("0 lines changed"), "{divider:?}");
    assert!(divider.ends_with('─'), "right terminal edge: {divider:?}");
}

#[test]
fn turn_divider_colors_added_and_removed_counts_independently() {
    let p = COLOR;
    let line = turn_divider_line("2.0s", 12, 3, p);
    let find = |l: &Line, t: &str| l.spans.iter().find(|s| s.content == t).expect("count").style;
    assert_eq!(find(&line, "+12"), p.semantic(Color::Green));
    assert_eq!(find(&line, "-3"), p.semantic(Color::Red));
    let fitted = full_width_turn_divider(&line, 120).expect("full-width divider");
    assert_eq!(find(&fitted, "+12"), p.semantic(Color::Green));
    assert_eq!(find(&fitted, "-3"), p.semantic(Color::Red));
}

#[test]
fn multiline_paste_renders_as_a_line_count_without_losing_content() {
    let mut state = state("m");
    state.composer.push_str("review ");
    let lines = state.append_paste("alpha\r\nbeta\ngamma");
    state.composer.push_str(" please");
    assert_eq!(lines, 3);
    assert_eq!(state.composer, "review alpha\nbeta\ngamma please");
    assert_eq!(
        joined(&state.composer_content_spans(COLOR)),
        "review [pasted 3 lines] please"
    );
    let screen = rendered_sized(&mut state, 70, 10);
    assert!(
        screen.contains("[pasted 3 lines]"),
        "compact paste label: {screen}"
    );
    assert!(
        !screen.contains("alpha"),
        "paste body remains hidden: {screen}"
    );
    assert!(
        !screen.contains("gamma"),
        "all pasted lines remain hidden: {screen}"
    );
}

#[test]
fn single_line_paste_stays_visible_and_editing_reveals_multiline_text() {
    let mut state = state("m");
    let shown = |s: &ViewState| joined(&s.composer_content_spans(COLOR));
    assert_eq!(state.append_paste("one line"), 1);
    assert_eq!(shown(&state), "one line");
    assert_eq!(state.append_paste("\ntwo\nthree"), 3);
    assert!(shown(&state).contains("[pasted 3 lines]"));
    state.clear_paste_markers();
    assert_eq!(shown(&state), "one line\ntwo\nthree");
}

#[test]
fn status_right_corner_is_empty_when_nothing_is_happening() {
    let mut state = state("m");
    let screen = rendered(&mut state);
    let status = screen
        .lines()
        .find(|r| r.contains(&state.location))
        .expect("status line on screen");
    assert!(
        !status.contains("Ctrl+C"),
        "no static onboarding in the state line: {status}"
    );
    assert!(
        !status.contains("/help"),
        "help lives on the welcome card: {status}"
    );
}

#[test]
fn status_right_hint_shows_interrupt_when_busy() {
    let mut state = state("m");
    state.busy = true;
    let screen = rendered(&mut state);
    assert!(screen.contains("Esc"), "busy shows Esc: {screen}");
    assert!(
        screen.contains("interrupt"),
        "busy shows interrupt: {screen}"
    );
}

#[test]
fn status_right_hint_shows_esc_clear_when_draft_present() {
    let mut state = state("m");
    state.composer = "a half-typed prompt".into();
    let screen = rendered(&mut state);
    assert!(screen.contains("Esc"), "draft shows Esc: {screen}");
    assert!(screen.contains("clear"), "draft shows clear: {screen}");
}

#[test]
fn status_shows_returned_context_and_cache_hit_rate() {
    let mut state = state("m");
    state.context_tokens = Some(12_345);
    state.context_tokens_estimated = false;
    state.cache_hit_rate = Some(CacheRate { cached: 81, prompt: 1000 });
    let screen = rendered_sized(&mut state, 78, 10);
    assert!(
        screen.contains("ctx: 12.3K tok"),
        "reported context: {screen}"
    );
    assert!(screen.contains("8% cached"), "cache rate: {screen}");
    assert!(!screen.contains('Σ'), "cumulative count removed: {screen}");
}

#[test]
fn right_align_pads_between_left_and_right() {
    let line = right_align(vec![Span::raw("abc")], vec![Span::raw("xy")], 10);
    let text = text(&line);
    assert_eq!(text, "abc     xy");
    assert_eq!(text.chars().count(), 10, "fills exactly to width: {text:?}");
}

#[test]
fn compact_loader_rotates_over_the_turn() {
    let started = SECOND;
    let first = logo_spinner_span(started, Some(started), true, COLOR);
    let next = logo_spinner_span(started + 90 * MS, Some(started), true, COLOR);
    assert_ne!(first.content, next.content);
}

#[test]
fn the_thinking_row_is_timed_and_has_no_mark() {
    let label = text(&still_thinking_line(SECOND, Some(SECOND), COLOR));
    assert_eq!(label, "Marathoning · 0s");
    assert_eq!(marathoning_label(4 * SECOND, Some(SECOND)), "Marathoning · 3s");
}

#[test]
fn tool_running_line_shows_logo_and_tool_name() {
    let mut state = state("m");
    state.busy = true;
    state.running = 1;
    state.running_tool = Some("Bash".into());
    state.turn_started = Some(SECOND);
    let text = text(&state.tool_running_line(SECOND, true, COLOR));
    assert!(text.contains(DEFAULT_LOGO), "tiny logo: {text}");
    assert!(text.contains("Bash"), "tool name: {text}");
}

#[test]
fn the_welcome_text_carries_the_onboarding() {
    let mut state = state("gw-glm-5.2");
    let screen = rendered_sized(&mut state, 80, 20);
    assert!(screen.contains("Subconscious Code"), "wordmark: {screen}");
    assert!(screen.contains("gw-glm-5.2"), "model: {screen}");
    assert!(screen.contains("mention a file"), "@ hint: {screen}");
    assert!(screen.contains("Ctrl+C"), "quit hint: {screen}");
    assert!(
        screen.contains("accept edits"),
        "Shift+Tab names the modes: {screen}"
    );
    let rows: Vec<&str> = screen.lines().collect();
    let box_bottom = rows
        .iter()
        .position(|row| row.starts_with('╰') && row.ends_with('╯'))
        .expect("composer bottom border");
    let model_row = rows
        .iter()
        .position(|row| row.contains("gw-glm-5.2"))
        .expect("model footer");
    assert_eq!(model_row, box_bottom + 1, "model below composer: {screen}");
    assert!(!rows[model_row].contains("model"));
    assert_eq!(rows.iter().filter(|r| r.contains("╭")).count(), 1);
    assert!(welcome_logo_fits(Area { x: 0, y: 0, width: 80, height: 24 }));
    assert!(!welcome_logo_fits(Area { x: 0, y: 0, width: 60, height: 7 }));
}

#[test]
fn welcome_card_disappears_once_a_turn_starts() {
    let mut state = state("m");
    state.transcript.push(raw("> hello"));
    let screen = rendered(&mut state);
    assert!(
        !screen.contains("Subconscious Code"),
        "no welcome card once conversation started: {screen}"
    );
}

#[test]
fn welcome_card_returns_after_clear() {
    let mut state = state("m");
    state.transcript.push(raw("> hello"));
    state.transcript.clear();
    let screen = rendered(&mut state);
    assert!(
        screen.contains("Subconscious Code"),
        "welcome card after clear: {screen}"
    );
}

#[test]
fn wide_chat_uses_almost_the_entire_terminal() {
    let wide = content_area(Area { x: 0, y: 0, width: 200, height: 24 });
    assert_eq!(wide.x, 1);
    assert_eq!(wide.width, 198);
    let narrow = content_area(Area { x: 0, y: 0, width: 80, height: 24 });
    assert_eq!(narrow.x, 0);
    assert_eq!(narrow.width, 80);
    assert_eq!(plural(1, "session"), "1 session");
    assert_eq!(plural(4, "session"), "4 sessions");
    assert_eq!(ellipsize("abcdef", 4), "abc…");
}

#[test]
fn an_empty_range_is_no_range() {
    let mut state = state("m");
    state.transcript.push(raw("one"));
    assert_eq!(state.remove_transcript_range(99, 0), 0);
    assert_eq!(state.transcript.len(), 1);
}

#[test]
fn the_composer_grows_to_six_rows() {
    assert_eq!(bottom_height(true, 9), 4);
    assert_eq!(bottom_height(false, 0), 3);
    assert_eq!(bottom_height(false, 1), 3);
    assert_eq!(bottom_height(false, 5), 7);
    assert_eq!(bottom_height(false, 6), 8);
    assert_eq!(bottom_height(false, 65_536), 8);
    assert_eq!(bottom_height(false, 65_537), 8);
}

#[test]
fn texts_are_shortened_by_the_cells_they_take() {
    assert_eq!(ellipsize("abcd", 4), "abcd");
    assert_eq!(ellipsize("日本語", 6), "日本語");
    assert_eq!(ellipsize("日本語", 5), "日本…");
    assert_eq!(ellipsize("日本語", 4), "日…");
    assert_eq!(ellipsize("abc", 0), "…");
}

#[test]
fn a_held_view_says_where_it_stands() {
    let mut state = state("m");
    for i in 0..20 {
        state.transcript.push(raw(&format!("line {i}")));
    }
    state.area_height = 5;
    assert_eq!(state.scroll_indicator(), "");
    state.follow = false;
    state.scroll_top = 0;
    assert_eq!(state.scroll_indicator(), "↑ top");
    state.scroll_top = 4;
    assert_eq!(state.scroll_indicator(), "↑ 11 below");
    state.scroll_top = 99;
    assert_eq!(state.scroll_indicator(), "↑ 0 below");
}

#[test]
fn one_live_row_shows_at_most() {
    let mut state = state("m");
    assert_eq!(state.live_kind(), LiveKind::Nothing);
    state.busy = true;
    assert_eq!(state.live_kind(), LiveKind::Thinking);
    state.running = 1;
    assert_eq!(state.live_kind(), LiveKind::Tool);
    state.current_text = "so".to_string();
    assert_eq!(state.live_kind(), LiveKind::Nothing);
}

#[test]
fn a_long_prompt_scrolls_to_its_caret() {
    let area = Area { x: 0, y: 0, width: 12, height: 4 };
    assert_eq!(composer_scroll(&raw("short"), area), 0);
    // Ten columns and two rows are inside the border.
    assert_eq!(composer_scroll(&raw(&"x".repeat(45)), area), 3);
}

#[test]
fn the_welcome_card_stands_at_the_top() {
    let lines = vec![raw("one"), raw("two")];
    let area = Area { x: 1, y: 2, width: 80, height: 20 };
    let bare = welcome_layout(&lines, area, None);
    assert_eq!(bare.mark, None);
    assert_eq!(bare.text, Area { x: 1, y: 2, width: 80, height: 2 });
    let marked = welcome_layout(&lines, area, Some((18, 8)));
    assert_eq!(marked.mark, Some(Area { x: 1, y: 2, width: 18, height: 8 }));
    assert_eq!(marked.text, Area { x: 19, y: 8, width: 62, height: 2 });
}
