use subcode::app::{Action, AgentEvent, App, AskResponse};
use subcode::complete::{slash_palette, Completion, MenuKind};
use subcode::diff::{line_stats, DiffStats};
use subcode::input::{
    browse_history, classify_slash, cycle_mode, delete_last_word, esc_action, is_quit_word,
    load_history, loop_prompt, push_history, resolve_staged_submit, same_menu, truncate,
    EscAction, PendingSubmit, SlashAction, PASTE_RESCUE_WINDOW,
};
use subcode::keys::{Key, KeyCode, Modifiers};
use subcode::menu::{KeySource, MenuState, Outcome, Settings};
use subcode::paths::{join_path, path_seen_from, place_name_of};
use subcode::pointer::MouseKind;
use subcode::report::{
    base64, branch_of, clipboard_sequence, describe_location, edit_args, error_block, gitdir_of,
    memory_candidates, memory_status_lines, retry_notice_line, suggested_rule, summarize_args,
    tool_result_detail_lines, tool_summary_line, turn_duration_label, user_prompt_line,
    ToolResultBody,
};
use subcode::screen::Area;
use subcode::slash::{help_lines, Surroundings};
use subcode::styled::{Color, Line, Paint, Span};
use subcode::theme::{Palette, DEFAULT_LOGO};
use subcode::turn::{
    collapse_tool_call, collapse_unfinished_tool_calls, restore_history, LiveTool, ToolCall, Turn,
};
use subcode::view::{AgentMode, FileChange, Selection, Usage, ViewState};

const COLOR: Palette = Palette { no_color: false };
const SECOND: u64 = 1_000_000_000;
const MS: u64 = 1_000_000;

fn view() -> ViewState {
    ViewState::new("m".to_string(), 0)
}

fn raw(s: &str) -> Line {
    Line::new(vec![Span::raw(s)])
}

fn text(l: &Line) -> String {
    l.spans.iter().map(|s| s.content.as_str()).collect()
}

fn texts(v: &[Line]) -> Vec<String> {
    v.iter().map(text).collect()
}

fn ok(content: &str) -> ToolResultBody {
    ToolResultBody::Success { content: content.to_string(), truncated: false }
}

fn failed(message: &str) -> ToolResultBody {
    ToolResultBody::Failure { message: message.to_string() }
}

fn live(id: &str, start: usize, len: usize, tool: &str) -> LiveTool {
    LiveTool { id: id.to_string(), start, len, tool: tool.to_string(), started: SECOND }
}

#[test]
fn quit_word_recognizes_exit_and_quit_only() {
    assert!(is_quit_word("exit"));
    assert!(is_quit_word("quit"));
    assert!(is_quit_word("  exit  "));
    assert!(!is_quit_word("exit code"), "phrase -> model");
    assert!(!is_quit_word("exit?"), "with punctuation -> model");
    assert!(!is_quit_word("exits"), "plural -> model");
    assert!(!is_quit_word("how do I exit"), "sentence -> model");
    assert!(!is_quit_word("/exit"), "slash form handled by handle_slash");
    assert!(!is_quit_word(""), "empty -> no-op");
}

#[test]
fn finished_turn_gets_one_timed_divider_and_spacing() {
    let started = 5 * SECOND;
    let mut view = view();
    view.busy = true;
    view.turn_started = Some(started);
    view.transcript.push(raw("answer"));
    view.turn_file_changes.push(FileChange {
        path: "src/main.rs".to_string(),
        before: Some(b"one\ntwo\n".to_vec()),
        after: Some(b"one\nthree\nfour\n".to_vec()),
    });
    view.finish_turn_at(started + 75 * SECOND, COLOR);
    assert_eq!(view.transcript.len(), 3, "answer, space, divider");
    assert_eq!(text(&view.transcript[1]), "", "blank turn separation");
    let divider = text(&view.transcript[2]);
    assert!(divider.contains("worked for 1m 15s"), "{divider}");
    assert!(divider.contains("3 lines changed (+2 -1)"), "{divider}");
    assert!(view.turn_file_changes.is_empty());
    assert!(!view.busy);
    view.finish_turn_at(started + 76 * SECOND, COLOR);
    assert_eq!(
        view.transcript.len(),
        3,
        "Outcome + Idle cannot duplicate it"
    );
    assert_eq!(turn_duration_label(1400 * MS), "1.4s");
}

#[test]
fn file_artifacts_render_live_and_accumulate_a_net_turn_diff() {
    let mut view = view();
    let path = "/repo/src/main.rs".to_string();
    view.show_artifact(
        "/repo",
        path.clone(),
        Some(b"one\ntwo\n".to_vec()),
        Some(b"one\nthree\n".to_vec()),
        COLOR,
    );
    view.show_artifact(
        "/repo",
        path.clone(),
        Some(b"one\nthree\n".to_vec()),
        Some(b"one\nfour\nfive\n".to_vec()),
        COLOR,
    );
    let rendered = texts(&view.transcript).concat();
    assert!(rendered.contains("src/main.rs"), "{rendered}");
    assert!(rendered.contains("two"), "{rendered}");
    assert!(rendered.contains("three"), "{rendered}");
    assert!(rendered.contains("four"), "{rendered}");
    assert_eq!(view.turn_file_changes.len(), 1);
    let change = &view.turn_file_changes[0];
    assert_eq!(change.path, path);
    assert_eq!(change.before.as_deref(), Some(b"one\ntwo\n".as_slice()));
    assert_eq!(change.after.as_deref(), Some(b"one\nfour\nfive\n".as_slice()));
    let stats = line_stats(change.before.as_deref(), change.after.as_deref());
    assert_eq!(
        stats,
        DiffStats {
            added: 2,
            removed: 1
        }
    );
}

#[test]
fn successful_model_retries_have_a_visible_transcript_notice() {
    assert_eq!(
        text(&retry_notice_line(1, COLOR)),
        "↻ model request recovered after 1 retry"
    );
    assert_eq!(
        text(&retry_notice_line(2, COLOR)),
        "↻ model request recovered after 2 retries"
    );
}

#[test]
fn cycle_mode_rotates_through_every_mode() {
    assert_eq!(cycle_mode(AgentMode::Ask), AgentMode::Default);
    assert_eq!(cycle_mode(AgentMode::Default), AgentMode::AcceptEdits);
    assert_eq!(cycle_mode(AgentMode::AcceptEdits), AgentMode::Plan);
    assert_eq!(cycle_mode(AgentMode::Plan), AgentMode::Auto);
    assert_eq!(cycle_mode(AgentMode::Auto), AgentMode::Ask);
    let mut m = AgentMode::Default;
    for _ in 0..5 {
        m = cycle_mode(m);
    }
    assert_eq!(m, AgentMode::Default, "five steps is a full lap");
}

#[test]
fn suggested_rule_for_bash_uses_first_token() {
    assert_eq!(
        suggested_rule("Bash", &Some("cargo test --lib".to_string())),
        "Bash(cargo:*)"
    );
    assert_eq!(suggested_rule("Edit", &None), "Edit");
}

#[test]
fn base64_matches_the_rfc_vectors() {
    assert_eq!(base64(b""), "");
    assert_eq!(base64(b"f"), "Zg==");
    assert_eq!(base64(b"fo"), "Zm8=");
    assert_eq!(base64(b"foo"), "Zm9v");
    assert_eq!(base64(b"foob"), "Zm9vYg==");
    assert_eq!(base64(b"fooba"), "Zm9vYmE=");
    assert_eq!(base64(b"foobar"), "Zm9vYmFy");
    assert_eq!(base64("é".as_bytes()), "w6k=");
}

#[test]
fn the_clipboard_is_reached_through_tmux() {
    assert_eq!(clipboard_sequence("f", false), "\x1b]52;c;Zg==\x07");
    assert_eq!(clipboard_sequence("f", true), "\x1bPtmux;\x1b\x1b]52;c;Zg==\x07\x1b\\");
}

#[test]
fn selection_orders_row_major_in_both_directions() {
    let down = Selection {
        anchor: (3, 1),
        head: (7, 4),
    };
    assert_eq!(down.ordered(), ((3, 1), (7, 4)));
    let up = Selection {
        anchor: (7, 4),
        head: (3, 1),
    };
    assert_eq!(
        up.ordered(),
        ((3, 1), (7, 4)),
        "dragging up is the same span"
    );
    let left = Selection {
        anchor: (9, 2),
        head: (2, 2),
    };
    assert_eq!(left.ordered(), ((2, 2), (9, 2)));
}

#[test]
fn a_press_without_movement_is_not_a_selection() {
    let click = Selection {
        anchor: (4, 4),
        head: (4, 4),
    };
    assert!(click.is_empty());
    assert!(!Selection {
        anchor: (4, 4),
        head: (5, 4)
    }
    .is_empty());
}

#[test]
fn location_label_pairs_directory_with_branch() {
    let label = describe_location("/home/d/subconscious-code", &Some("main".to_string()));
    assert!(
        label.starts_with("subconscious-code"),
        "leads with the directory: {label}"
    );
    assert!(label.contains("main"), "{label}");
    let long = describe_location("/home/d/sc", &Some("feature/".to_string() + &"x".repeat(80)));
    assert!(label.len() <= 64, "bounded length: {label}");
    assert!(long.len() <= 64, "bounded length: {long}");
    assert_eq!(describe_location("/", &None), "/");
    assert_eq!(branch_of("ref: refs/heads/main\n").as_deref(), Some("main"));
    assert_eq!(branch_of("0123456789abcdef\n"), None);
    assert_eq!(gitdir_of("gitdir: /r/.git/worktrees/w\n").as_deref(), Some("/r/.git/worktrees/w"));
}

#[test]
fn truncate_is_char_safe() {
    assert_eq!(truncate("hello", 10), "hello");
    assert_eq!(truncate("héllo", 2), "hé...");
}

#[test]
fn resumed_history_restores_visible_turns_metrics_and_collapsed_details() {
    let turns = vec![
        Turn::User { content: "earlier prompt".to_string() },
        Turn::Assistant {
            text: "earlier answer".to_string(),
            reasoning: Some("private restored thought".to_string()),
            calls: vec![ToolCall {
                id: "call-1".to_string(),
                name: "Bash".to_string(),
                arguments: r#"{"command":"false"}"#.to_string(),
            }],
            usage: Some(Usage {
                prompt_tokens: 321,
                completion_tokens: 9,
                total_tokens: 330,
                cache_hit_rate: None,
            }),
        },
        Turn::ToolResult {
            call_id: "call-1".to_string(),
            tool: "Bash".to_string(),
            result: failed("exit 1"),
            duration: 390 * MS,
        },
    ];
    let mut view = view();
    restore_history(&mut view, &turns, COLOR);
    let collapsed = texts(&view.transcript).concat();
    assert!(collapsed.contains("earlier prompt"));
    assert!(collapsed.contains("earlier answer"));
    assert!(collapsed.contains("thought"));
    assert!(!collapsed.contains("private restored thought"));
    assert!(collapsed.contains("Bash · 0.39s · failed"));
    assert_eq!(view.context_tokens, Some(321));
    assert!(!view.context_tokens_estimated);
    view.toggle_latest_reasoning(COLOR)
        .expect("restored thought remains expandable");
    let expanded = texts(&view.transcript).concat();
    assert!(expanded.contains("private restored thought"));
}

#[test]
fn delete_last_word_drops_trailing_word() {
    let mut s = String::from("fix the bug");
    delete_last_word(&mut s);
    assert_eq!(s, "fix the");
    delete_last_word(&mut s);
    assert_eq!(s, "fix");
    delete_last_word(&mut s);
    assert_eq!(s, "");
    let mut s = String::from("solo");
    delete_last_word(&mut s);
    assert_eq!(s, "");
}

#[test]
fn delete_last_word_is_char_safe() {
    let mut s = String::from("café au lait");
    delete_last_word(&mut s);
    assert_eq!(s, "café au");
    delete_last_word(&mut s);
    assert_eq!(s, "café");
    delete_last_word(&mut s);
    assert_eq!(s, "");
}

#[test]
fn delete_last_word_trims_trailing_whitespace() {
    let mut s = String::from("foo bar   ");
    delete_last_word(&mut s);
    assert_eq!(s, "foo");
}

#[test]
fn edit_args_extracts_path_old_new() {
    let args = r#"{"file_path":"/a.rs","old_string":"foo","new_string":"bar"}"#;
    assert_eq!(
        edit_args(args),
        Some(("/a.rs".into(), "foo".into(), "bar".into()))
    );
    assert!(edit_args(r#"{"file_path":"/a.rs"}"#).is_none());
    assert!(edit_args("{not json}").is_none());
    assert_eq!(summarize_args(r#"{"command":"ls"}"#), "ls");
}

#[test]
fn user_prompt_echo_is_a_grey_box_without_the_brand_logo() {
    let line = user_prompt_line("hello", COLOR);
    let text = text(&line);
    assert_eq!(text, "  > hello  ");
    assert!(
        !text.contains(DEFAULT_LOGO),
        "logo is reserved for output: {text}"
    );
    assert_eq!(line.style.bg, Paint::Solid(Color::DarkGray), "grey background");
    let mono = user_prompt_line("hello", Palette { no_color: true });
    assert!(mono.style.reversed, "monochrome enclosure");
}

#[test]
fn successful_tool_disappears_when_it_finishes() {
    let mut view = view();
    view.transcript = vec![raw("before"), raw("▸ Read  README.md"), raw("after")];
    let mut live_tools = vec![live("read-1", 1, 1, "Read")];
    collapse_tool_call(
        &mut view,
        &mut live_tools,
        "read-1",
        "Read",
        &ok("line one\nline two\nline three"),
        SECOND + 390 * MS,
        COLOR,
    );
    assert_eq!(texts(&view.transcript), ["before", "after"]);
    assert!(live_tools.is_empty());
}

#[test]
fn collapsed_failure_keeps_only_compact_status() {
    let line = tool_summary_line(
        "Bash",
        &failed("tests failed\nfull stack trace"),
        120 * MS,
        false,
        COLOR,
    );
    let text = text(&line);
    assert_eq!(text, "▸ Bash · 0.12s · failed");
    assert!(
        !text.contains("cargo test"),
        "arguments stay hidden: {text}"
    );
    assert!(
        !text.contains("tests failed"),
        "error stays behind expansion: {text}"
    );
}

#[test]
fn failed_tool_remains_as_a_timed_expandable_row() {
    let mut view = view();
    view.transcript = vec![raw("▸ Bash  cargo test")];
    let mut live_tools = vec![live("bash-1", 0, 1, "Bash")];
    collapse_tool_call(
        &mut view,
        &mut live_tools,
        "bash-1",
        "Bash",
        &failed("tests failed"),
        SECOND + 390 * MS,
        COLOR,
    );
    assert_eq!(view.transcript.len(), 1);
    assert_eq!(text(&view.transcript[0]), "▸ Bash · 0.39s · failed");
}

#[test]
fn tool_summary_status_by_kind() {
    let text = |result: &ToolResultBody| text(&tool_summary_line("T", result, 0, false, COLOR));
    assert_eq!(text(&ok("")), "▸ T · 0.00s");
    assert!(text(&failed("boom")).ends_with("failed"));
    assert!(text(&ToolResultBody::Denied {
        reason: "no".into()
    })
    .ends_with("denied"));
    assert!(text(&ToolResultBody::Interrupted).ends_with("interrupted"));
}

#[test]
fn expanded_tool_result_keeps_every_output_line() {
    let lines = tool_result_detail_lines(&ok("one\ntwo\nthree\nfour"), COLOR);
    assert_eq!(
        texts(&lines),
        ["  ✓ output", "  │ one", "  │ two", "  │ three", "  │ four"]
    );
}

#[test]
fn successful_parallel_tools_disappear_and_reindex_survivors() {
    let mut view = view();
    view.transcript = vec![
        raw("before"),
        raw("▸ Edit file.rs"),
        raw("  edit preview"),
        raw("▸ Bash cargo test"),
        raw("after"),
    ];
    let mut live_tools = vec![live("edit-1", 1, 2, "Edit"), live("bash-1", 3, 1, "Bash")];
    collapse_tool_call(
        &mut view,
        &mut live_tools,
        "edit-1",
        "Edit",
        &ok("done"),
        SECOND + 390 * MS,
        COLOR,
    );
    assert_eq!(
        view.transcript.len(),
        3,
        "the successful edit start and preview both disappear"
    );
    assert_eq!(live_tools.len(), 1);
    assert_eq!(live_tools[0].id, "bash-1");
    assert_eq!(live_tools[0].start, 1, "later parallel block is reindexed");
    collapse_tool_call(
        &mut view,
        &mut live_tools,
        "bash-1",
        "Bash",
        &ok("all green"),
        SECOND + 420 * MS,
        COLOR,
    );
    assert!(live_tools.is_empty());
    assert_eq!(texts(&view.transcript), ["before", "after"]);
}

#[test]
fn unfinished_calls_are_marked_as_interrupted() {
    let mut view = view();
    view.transcript = vec![raw("▸ A"), raw("▸ B"), raw("after")];
    let mut live_tools = vec![live("a", 0, 1, "A"), live("b", 1, 1, "B")];
    collapse_unfinished_tool_calls(&mut view, &mut live_tools, 2 * SECOND, COLOR);
    assert!(live_tools.is_empty());
    assert_eq!(
        texts(&view.transcript),
        ["▸ A · 1.00s · interrupted", "▸ B · 1.00s · interrupted", "after"]
    );
}

#[test]
fn error_block_inlines_short_message() {
    let lines = error_block("model rate-limited", COLOR);
    assert_eq!(lines.len(), 1, "short error inlines: {lines:?}");
    let text = text(&lines[0]);
    assert!(text.contains("✗"), "red error glyph: {text}");
    assert!(
        text.contains("model rate-limited"),
        "includes the message: {text}"
    );
}

#[test]
fn error_block_gutters_a_long_message() {
    let e = "line one\nline two\nline three\nline four\nline five\nline six\nline seven";
    let lines = error_block(e, COLOR);
    assert_eq!(lines.len(), 7, "header + 5 lines + …: {lines:?}");
    let header = text(&lines[0]);
    assert!(
        header.contains("✗ error"),
        "header is the glyph + error: {header}"
    );
    assert!(
        lines[6].spans.iter().any(|s| s.content.contains("…")),
        "trailing ellipsis: {lines:?}"
    );
}

#[test]
fn every_advertised_slash_command_reaches_the_real_dispatcher() {
    let mut seen = std::collections::HashSet::new();
    for (command, description) in slash_palette() {
        assert!(seen.insert(command), "duplicate command: {command}");
        assert!(!description.trim().is_empty(), "missing help: {command}");
        assert!(
            classify_slash(command).is_some(),
            "advertised command has no dispatcher action: {command}"
        );
    }
    assert!(matches!(
        classify_slash("/rewind 3"),
        Some(SlashAction::Rewind { steps: 3 })
    ));
    assert!(matches!(
        classify_slash("/goal ship the release"),
        Some(SlashAction::SetGoal(goal)) if goal == "ship the release"
    ));
    assert!(matches!(
        classify_slash("/goal clear"),
        Some(SlashAction::ClearGoal)
    ));
    assert!(matches!(
        classify_slash("/loop focus on tests"),
        Some(SlashAction::Loop(Some(direction))) if direction == "focus on tests"
    ));
    let loop_text = loop_prompt(Some("focus on tests"));
    assert!(loop_text.contains("active session goal"));
    assert!(loop_text.contains("Additional direction: focus on tests"));
    assert!(classify_slash("/rewind 0").is_none());
    assert!(classify_slash("/unknown").is_none());
    assert!(classify_slash("hello there").is_none());
    assert!(classify_slash("@src/main.rs").is_none());
    assert!(matches!(
        classify_slash("  /clear  "),
        Some(SlashAction::Clear)
    ));
}

#[test]
fn memory_command_reports_the_files_the_assembler_can_load() {
    let places = memory_candidates(&None, "/project");
    assert_eq!(places, vec!["/project/.sc/AGENTS.md", "/project/AGENTS.md"]);
    let read = vec![
        Some("   \n".to_string()),
        Some("project instructions\n".to_string()),
    ];
    let lines = memory_status_lines(&places, &read);
    assert!(
        lines.iter().any(|line| line.contains("/project/AGENTS.md")),
        "non-empty project memory is reported: {lines:?}"
    );
    assert!(
        !lines.iter().any(|line| line.contains("/project/.sc/AGENTS.md")),
        "blank memory is not loaded: {lines:?}"
    );
}

#[test]
fn same_menu_compares_kind_and_candidates() {
    let a = Completion {
        kind: MenuKind::Slash,
        replace_start: 0,
        candidates: vec!["/clear".into(), "/mode".into()],
    };
    let b = Completion {
        kind: MenuKind::Slash,
        replace_start: 9,
        candidates: vec!["/clear".into(), "/mode".into()],
    };
    assert!(same_menu(&a, &b));
    let c = Completion {
        kind: MenuKind::File,
        replace_start: 0,
        candidates: a.candidates.clone(),
    };
    assert!(!same_menu(&a, &c));
    let d = Completion {
        kind: MenuKind::Slash,
        replace_start: 0,
        candidates: vec!["/clear".into()],
    };
    assert!(!same_menu(&a, &d));
}

#[test]
fn rapid_enter_stream_is_reassembled_as_one_multiline_prompt() {
    let start = SECOND;
    let mut composer = String::new();
    let mut pending = Some(PendingSubmit {
        text: "first line".into(),
        staged: start,
    });
    assert!(resolve_staged_submit(&mut pending, &mut composer, start + MS, true).is_none());
    composer.push_str("second line");
    pending = Some(PendingSubmit {
        text: std::mem::take(&mut composer),
        staged: start + 2 * MS,
    });
    assert!(resolve_staged_submit(&mut pending, &mut composer, start + 3 * MS, true).is_none());
    composer.push_str("third line");
    pending = Some(PendingSubmit {
        text: std::mem::take(&mut composer),
        staged: start + 4 * MS,
    });
    let prompt = resolve_staged_submit(
        &mut pending,
        &mut composer,
        start + PASTE_RESCUE_WINDOW + 5 * MS,
        false,
    )
    .unwrap();
    assert_eq!(prompt, "first line\nsecond line\nthird line");
    assert!(composer.is_empty());
    assert!(pending.is_none());
}

#[test]
fn human_speed_input_dispatches_staged_prompt_before_new_draft() {
    let start = SECOND;
    let mut composer = String::new();
    let mut pending = Some(PendingSubmit {
        text: "send this".into(),
        staged: start,
    });
    let prompt = resolve_staged_submit(
        &mut pending,
        &mut composer,
        start + PASTE_RESCUE_WINDOW + MS,
        true,
    )
    .unwrap();
    assert_eq!(prompt, "send this");
    assert!(composer.is_empty());
}

#[test]
fn esc_action_never_loses_a_draft() {
    let mut s = view();
    assert_eq!(esc_action(&s), EscAction::Quit);
    s.composer = "half-typed prompt".into();
    assert_eq!(esc_action(&s), EscAction::Clear);
    s.busy = true;
    assert_eq!(esc_action(&s), EscAction::Cancel);
    s.queued_messages = 1;
    assert_eq!(esc_action(&s), EscAction::QueueAfterTool);
    s.queued_after_tool = true;
    assert_eq!(esc_action(&s), EscAction::Cancel);
    s.queued_messages = 0;
    s.queued_after_tool = false;
    s.busy = false;
    s.history_pos = Some(0);
    s.history_draft = "my draft".into();
    s.composer = "an old prompt".into();
    assert_eq!(esc_action(&s), EscAction::RestoreDraft);
    s.busy = true;
    assert_eq!(esc_action(&s), EscAction::Cancel);
}

#[test]
fn push_history_dedups_consecutive_and_skips_blank() {
    let mut h = Vec::new();
    push_history(&mut h, "a".into());
    push_history(&mut h, "b".into());
    push_history(&mut h, "b".into());
    push_history(&mut h, "  ".into());
    push_history(&mut h, "a".into());
    assert_eq!(h, vec!["a", "b", "a"]);
}

#[test]
fn browse_history_walks_and_restores_draft() {
    let hist = vec![
        "first".to_string(),
        "second".to_string(),
        "third".to_string(),
    ];
    let (pos, text) = browse_history(&hist, None, "draft", true);
    assert_eq!(pos, Some(2));
    assert_eq!(text, "third");
    let (pos, text) = browse_history(&hist, pos, "draft", true);
    assert_eq!(pos, Some(1));
    assert_eq!(text, "second");
    let (pos, text) = browse_history(&hist, Some(0), "draft", true);
    assert_eq!(pos, Some(0));
    assert_eq!(text, "first");
    let (pos, text) = browse_history(&hist, Some(1), "draft", false);
    assert_eq!(pos, Some(2));
    assert_eq!(text, "third");
    let (pos, text) = browse_history(&hist, Some(2), "my draft", false);
    assert_eq!(pos, None);
    assert_eq!(text, "my draft");
    let (pos, text) = browse_history(&hist, None, "draft", false);
    assert_eq!(pos, None);
    assert_eq!(text, "draft");
    let empty: Vec<String> = Vec::new();
    let (pos, text) = browse_history(&empty, None, "draft", true);
    assert_eq!(pos, None);
    assert_eq!(text, "draft");
}

#[test]
fn history_round_trips_through_disk() {
    let body = "first prompt\nsecond prompt\nsecond prompt\n";
    assert_eq!(load_history(body), vec!["first prompt", "second prompt"]);
    assert!(load_history("").is_empty());
}

#[test]
fn paths_read_from_their_base() {
    assert_eq!(join_path("/a", "b"), "/a/b");
    assert_eq!(path_seen_from("/a/b/c", "/a"), "b/c");
    assert_eq!(place_name_of("/a/b"), "b");
}

// ---- the session ------------------------------------------------------------
fn session() -> App {
    App::new("m".to_string(), "/w".to_string(), &vec![], vec![], 0, COLOR)
}

fn around() -> Surroundings {
    Surroundings { motion: false, cwd_present: true, cache_label: String::new() }
}

fn press(code: KeyCode) -> Key {
    Key {
        code,
        modifiers: Modifiers {
            shift: false,
            control: false,
            alt: false,
            command: false,
            hyper: false,
            meta: false,
        },
    }
}

fn type_text(app: &mut App, text: &str, now: u64) {
    for c in text.chars() {
        app.handle_key(press(KeyCode::Char(c)), &around(), now, COLOR);
    }
}

fn menu() -> MenuState {
    let settings = Settings {
        fields: vec![],
        models: vec![],
        api_key_env: "SC_API_KEY".to_string(),
        key_source: KeySource::Unset,
    };
    MenuState::new(vec![], settings)
}

#[test]
fn a_prompt_is_held_and_then_submitted() {
    let mut app = session();
    type_text(&mut app, "hello", SECOND);
    assert_eq!(app.view.composer, "hello");
    app.handle_key(press(KeyCode::Enter), &around(), 2 * SECOND, COLOR);
    assert_eq!(app.view.composer, "");
    assert_eq!(app.pending_submit.as_ref().map(|s| s.text.as_str()), Some("hello"));
    assert_eq!(app.flush_pending_submit_if_due(2 * SECOND + MS), vec![]);
    let due = app.flush_pending_submit_if_due(3 * SECOND);
    assert_eq!(due, vec![Action::Submit("hello".to_string())]);
    let more = app.submit_accepted("hello".to_string(), 3 * SECOND, COLOR);
    assert!(more.contains(&Action::Remember("hello".to_string())));
    assert!(app.view.busy);
    assert!(texts(&app.view.transcript).concat().contains("> hello"));
    assert_eq!(app.view.prompt_history, vec!["hello"]);
}

#[test]
fn a_turn_streams_and_ends() {
    let mut app = session();
    app.apply(AgentEvent::Ready, SECOND, COLOR);
    app.apply(AgentEvent::Reasoning("hm".to_string()), SECOND, COLOR);
    app.apply(AgentEvent::Text("the answer".to_string()), 2 * SECOND, COLOR);
    assert_eq!(app.view.current_text, "the answer");
    let call = ToolCall {
        id: "c".to_string(),
        name: "Bash".to_string(),
        arguments: r#"{"command":"false"}"#.to_string(),
    };
    app.apply(AgentEvent::ToolStart { call }, 3 * SECOND, COLOR);
    assert_eq!(app.view.running, 1);
    app.apply(
        AgentEvent::ToolEnd {
            call_id: "c".to_string(),
            tool: "Bash".to_string(),
            result: failed("exit 1"),
        },
        4 * SECOND,
        COLOR,
    );
    assert_eq!(app.view.running, 0);
    app.apply(AgentEvent::Outcome, 5 * SECOND, COLOR);
    assert!(!app.view.busy);
    let shown = texts(&app.view.transcript).concat();
    assert!(shown.contains("the answer"));
    assert!(shown.contains("Bash · 1.00s · failed"));
    assert!(app.live_tools.is_empty());
}

#[test]
fn a_question_takes_every_key() {
    let mut app = session();
    app.apply(
        AgentEvent::PermissionAsk {
            id: 7,
            tool: "Bash".to_string(),
            command: Some("cargo test".to_string()),
            reason: "why".to_string(),
        },
        SECOND,
        COLOR,
    );
    assert_eq!(app.handle_key(press(KeyCode::Char('x')), &around(), SECOND, COLOR), vec![]);
    assert!(app.view.pending_ask.is_some());
    let answered = app.handle_key(press(KeyCode::Char('s')), &around(), SECOND, COLOR);
    let response = AskResponse::Session("Bash(cargo:*)".to_string());
    assert_eq!(answered, vec![Action::Answer { id: 7, response }]);
    assert!(app.view.pending_ask.is_none());
}

#[test]
fn control_c_ends_the_session() {
    let mut app = session();
    let mut key = press(KeyCode::Char('c'));
    key.modifiers.control = true;
    let (actions, goes_on) = app.key_arrived(key, SECOND);
    assert_eq!(actions, vec![Action::Quit]);
    assert!(!goes_on);
    assert!(app.quit);

    let mut other = session();
    assert_eq!(other.handle_key(key, &around(), SECOND, COLOR), vec![Action::Quit]);
    assert!(other.quit);
}

#[test]
fn the_menu_takes_keys_and_pastes() {
    let mut app = session();
    app.open_menu(menu());
    let n = app.view.menu_overlay.as_ref().unwrap().rows().len();
    app.handle_key(press(KeyCode::Up), &around(), SECOND, COLOR);
    assert_eq!(app.view.menu_overlay.as_ref().unwrap().selected, n - 1);
    assert_eq!(app.view.composer, "");
    app.handle_key(press(KeyCode::Esc), &around(), SECOND, COLOR);
    assert!(app.view.menu_overlay.is_none());
    app.open_menu(menu());
    app.handle_paste("one\ntwo", SECOND, COLOR);
    assert!(app.view.menu_overlay.is_none());
    assert_eq!(app.view.composer, "one\ntwo");
    assert_eq!(app.leave_with(Outcome::NewIn("/x".to_string())), vec![Action::Quit]);
    assert_eq!(app.outcome, Some(Outcome::NewIn("/x".to_string())));
}

#[test]
fn commands_are_run() {
    let mut app = session();
    let actions = app.run_slash(SlashAction::Rewind { steps: 2 }, &around(), COLOR);
    assert_eq!(actions, vec![Action::Rewind { steps: 2 }]);
    app.run_slash(SlashAction::Help, &around(), COLOR);
    let help = texts(&app.view.transcript).concat();
    for (command, _) in slash_palette() {
        assert!(help.contains(command), "{command}");
    }
    assert!(help_lines(COLOR).len() >= slash_palette().len());
    app.run_slash(SlashAction::Clear, &around(), COLOR);
    assert!(app.view.transcript.is_empty());
    assert_eq!(app.step_mode(), vec![Action::SetMode(AgentMode::AcceptEdits)]);
    assert_eq!(app.toggle_mouse_capture(), vec![Action::CaptureMouse(true)]);
    app.exported("/tmp/x.md", None, COLOR);
    assert!(texts(&app.view.transcript).concat().contains("/tmp/x.md"));
}

#[test]
fn the_wheel_moves_the_view() {
    let mut app = session();
    for i in 0..40 {
        app.view.transcript.push(raw(&format!("line {i}")));
    }
    let area = Area { x: 0, y: 0, width: 40, height: 10 };
    app.view.lay_out(area, &vec![], &raw(""), COLOR);
    assert_eq!(app.view.total_lines(), 40);
    assert_eq!(app.view.current_top(), 30);
    app.handle_mouse(MouseKind::ScrollUp, 1, 1, COLOR);
    assert!(!app.view.follow);
    assert_eq!(app.view.current_top(), 27);
    app.handle_mouse(MouseKind::ScrollDown, 1, 1, COLOR);
    assert!(app.view.follow);
    app.view.scroll_page_up();
    assert_eq!(app.view.current_top(), 20);
    app.view.jump_to_bottom();
    assert_eq!(app.view.current_top(), 30);
    app.view.scroll_line_up();
    app.view.scroll_line_down();
    assert!(app.view.follow);
}

#[test]
fn a_queued_prompt_starts_at_its_turn() {
    let mut app = session();
    app.view.busy = true;
    app.queue_accepted("next".to_string(), COLOR);
    assert_eq!(app.view.queued_messages, 1);
    app.view.busy = false;
    app.apply(AgentEvent::Ready, SECOND, COLOR);
    assert_eq!(app.view.queued_messages, 0);
    assert!(app.view.busy);
    assert!(texts(&app.view.transcript).concat().contains("> next"));
}

#[test]
fn a_drag_copies_and_a_click_does_not() {
    let mut app = session();
    app.handle_mouse(MouseKind::LeftDown, 1, 1, COLOR);
    app.handle_mouse(MouseKind::LeftDrag, 4, 1, COLOR);
    app.view.selection_text = Some("text".to_string());
    app.handle_mouse(MouseKind::LeftUp, 4, 1, COLOR);
    assert_eq!(app.view.flush_copy().as_deref(), Some("text"));
    app.view.copied("text", SECOND);
    assert_eq!(app.view.copy_notice, Some(("copied 4 chars".to_string(), SECOND)));
    app.view.clear_selection();
    app.handle_mouse(MouseKind::LeftDown, 1, 1, COLOR);
    app.handle_mouse(MouseKind::LeftUp, 1, 1, COLOR);
    assert_eq!(app.view.flush_copy(), None);
}
