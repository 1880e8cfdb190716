use subcode::complete::{apply, complete, listing_dir, slash_palette, Completion, DirEntry, MenuKind};
use subcode::diff::{
    count_changes, file_diff_lines, line_stats, render_file, render_words, word_diff_line, Change,
    ChangeTag, DiffStats,
};
use subcode::markdown::{char_count_of, parse_blocks, parse_inline};
use subcode::menu::{
    ago, group_projects, Field, FieldKind, KeySource, MenuPage, MenuState, Outcome, Row,
    SessionInfo, Settings, SettingsWrite,
};
use subcode::styled::{Color, Line, Paint, Span, Style};
use subcode::theme::{
    accent_rgb, animations_enabled, diff_added_bg, diff_removed_bg, loading_color, logo_glyph,
    palette, Palette, DEFAULT_LOGO,
};

const COLOR: Palette = Palette { no_color: false };

fn line_text(line: &Line) -> String {
    line.spans.iter().map(|s| s.content.as_str()).collect()
}

fn plain(lines: &[Line]) -> Vec<String> {
    lines.iter().map(line_text).collect()
}

// ---- completion -------------------------------------------------------------
/// The entries of a directory of files.
fn files(names: &[&str]) -> Vec<DirEntry> {
    names
        .iter()
        .map(|n| DirEntry { name: n.to_string(), is_dir: false })
        .collect()
}

#[test]
fn slash_at_start_offers_commands() {
    let c = complete("/", &[]).unwrap();
    assert_eq!(c.kind, MenuKind::Slash);
    assert_eq!(c.replace_start, 0);
    assert!(c.candidates.contains(&"/clear".to_string()));
    assert!(c.candidates.contains(&"/help".to_string()));
    assert!(c.candidates.contains(&"/mode".to_string()));
}

#[test]
fn slash_filters_by_prefix() {
    let c = complete("/c", &[]).unwrap();
    assert!(c.candidates.iter().all(|s| s.starts_with("/c")));
    assert!(c.candidates.contains(&"/clear".to_string()));
    assert!(c.candidates.contains(&"/compact".to_string()));
    assert!(c.candidates.contains(&"/cost".to_string()));
}

#[test]
fn slash_with_unknown_prefix_is_none() {
    assert!(complete("/zzz", &[]).is_none());
}

#[test]
fn slash_not_triggered_after_text() {
    assert!(complete("edit /x", &[]).is_none());
}

#[test]
fn slash_with_space_is_not_a_command() {
    assert!(complete("/foo bar", &[]).is_none());
}

#[test]
fn at_lists_files_in_root() {
    assert_eq!(listing_dir("@").as_deref(), Some(""));
    let c = complete("@", &files(&["README.md", "main.rs", ".hidden"])).unwrap();
    assert_eq!(c.kind, MenuKind::File);
    assert!(c.candidates.contains(&"README.md".to_string()));
    assert!(c.candidates.contains(&"main.rs".to_string()));
    assert!(!c.candidates.iter().any(|s| s.contains(".hidden")));
}

#[test]
fn at_filters_by_prefix_case_insensitive() {
    let entries = files(&["README.md", "main.rs", "rc.txt"]);
    let c = complete("@RE", &entries).unwrap();
    assert_eq!(c.candidates, vec!["README.md".to_string()]);
    let c = complete("@M", &entries).unwrap();
    assert_eq!(c.candidates, vec!["main.rs".to_string()]);
}

#[test]
fn at_lists_a_subdirectory_with_trailing_slash() {
    assert_eq!(listing_dir("@src/").as_deref(), Some("src/"));
    let c = complete("@src/", &files(&["main.rs", "util.rs"])).unwrap();
    assert!(c.candidates.contains(&"src/main.rs".to_string()));
    assert!(c.candidates.contains(&"src/util.rs".to_string()));
    assert!(!c.candidates.iter().any(|s| s == "README.md"));
}

#[test]
fn at_directory_candidate_keeps_trailing_slash() {
    let entries = vec![DirEntry { name: "src".to_string(), is_dir: true }];
    let c = complete("@s", &entries).unwrap();
    assert_eq!(c.candidates, vec!["src/".to_string()]);
}

#[test]
fn at_hidden_shown_when_prefix_starts_with_dot() {
    let c = complete("@.", &files(&[".env", ".gitignore", "main.rs"])).unwrap();
    assert!(c.candidates.contains(&".env".to_string()));
    assert!(c.candidates.contains(&".gitignore".to_string()));
    assert!(!c.candidates.contains(&"main.rs".to_string()));
}

#[test]
fn a_dot_before_the_last_slash_shows_nothing_hidden() {
    let entries = files(&[".env", "main.rs"]);
    let c = complete("@a/.cfg/", &entries).unwrap();
    assert_eq!(c.candidates, vec!["a/.cfg/main.rs".to_string()]);
    let c = complete("@./", &entries).unwrap();
    assert_eq!(c.candidates, vec!["./main.rs".to_string()]);
    let c = complete("@a/.", &entries).unwrap();
    assert_eq!(c.candidates, vec!["a/.env".to_string()]);
}

#[test]
fn at_in_a_token_after_text() {
    let c = complete("edit @main", &files(&["main.rs", "other.rs"])).unwrap();
    assert_eq!(c.kind, MenuKind::File);
    assert_eq!(c.replace_start, 5);
    assert_eq!(c.candidates, vec!["main.rs".to_string()]);
}

#[test]
fn at_with_space_in_token_is_ignored() {
    assert!(complete("@foo bar", &files(&["foo"])).is_none());
}

#[test]
fn at_no_matches_is_none() {
    assert!(complete("@zzz", &files(&["main.rs"])).is_none());
}

#[test]
fn apply_file_completion_replaces_the_token() {
    let c = complete("@m", &files(&["main.rs", "other.rs"])).unwrap();
    let out = apply("@m", &c, 0).unwrap();
    assert_eq!(out, "@main.rs");
}

#[test]
fn apply_slash_completion_keeps_no_leading_at() {
    let c = complete("/c", &[]).unwrap();
    let out = apply("/c", &c, 0).unwrap();
    assert_eq!(out, "/clear");
}

#[test]
fn apply_preserves_text_before_the_trigger() {
    let c = complete("edit @m", &files(&["main.rs"])).unwrap();
    let out = apply("edit @m", &c, 0).unwrap();
    assert_eq!(out, "edit @main.rs");
}

#[test]
fn apply_out_of_bounds_is_none() {
    let c = complete("/", &[]).unwrap();
    assert!(apply("/", &c, 999).is_none());
}

#[test]
fn a_start_past_the_buffer_is_refused() {
    let c = Completion {
        kind: MenuKind::Slash,
        replace_start: 9,
        candidates: vec!["/clear".to_string()],
    };
    assert_eq!(apply("/c", &c, 0), None);
    assert_eq!(slash_palette()[0].0, "/clear");
}

// ---- diffs ------------------------------------------------------------------
#[test]
fn unchanged_text_passes_through() {
    let l = word_diff_line("same", "same", COLOR);
    assert_eq!(line_text(&l), "same");
}

#[test]
fn a_word_swap_shows_delete_and_insert() {
    let l = word_diff_line("the quick fox", "the slow fox", COLOR);
    let text = line_text(&l);
    assert!(
        text.contains("quick"),
        "kept the deleted word (struck): {text}"
    );
    assert!(text.contains("slow"), "kept the inserted word: {text}");
    let deleted = l.spans.iter().find(|s| s.content == "quick").unwrap();
    assert!(deleted.style.crossed_out, "deleted word is crossed out");
    let inserted = l.spans.iter().find(|s| s.content == "slow").unwrap();
    assert!(inserted.style.bold, "inserted word is bold");
}

#[test]
fn empty_old_treats_everything_as_inserted() {
    let l = word_diff_line("", "brand new text", COLOR);
    assert_eq!(line_text(&l), "brand new text");
    assert!(l.spans.iter().all(|s| s.style.bold));
}

#[test]
fn file_diff_reports_and_renders_changed_lines() {
    let (lines, stats) = file_diff_lines(
        "src/main.rs",
        Some(b"one\ntwo\n"),
        Some(b"one\nthree\nfour\n"),
        COLOR,
    );
    assert_eq!(
        stats,
        DiffStats {
            added: 2,
            removed: 1
        }
    );
    let text = plain(&lines).concat();
    assert!(text.contains("src/main.rs"), "{text}");
    assert!(text.contains("two"), "{text}");
    assert!(text.contains("three"), "{text}");
    assert!(text.contains("four"), "{text}");
    assert!(!text.contains("one"), "unchanged lines stay hidden: {text}");
    for row in lines.iter().skip(1) {
        assert_eq!(row.spans[0].content.as_str(), "  ");
        assert_eq!(row.spans[0].style.bg, Paint::Inherit, "gutter stays unhighlighted");
        assert!(
            row.spans[1].style.bg != Paint::Inherit || row.spans[1].style.reversed,
            "highlight begins after the two-cell gutter: {:?}",
            row.spans
        );
    }
    let removed = lines
        .iter()
        .flat_map(|line| line.spans.iter())
        .find(|span| span.content.contains("two"))
        .expect("removed row");
    assert!(
        removed.style.bg == Paint::Solid(diff_removed_bg()) && removed.style.fg == Paint::Inherit,
        "removed row is softly red-highlighted: {:?}",
        removed.style
    );
    let added = lines
        .iter()
        .flat_map(|line| line.spans.iter())
        .find(|span| span.content.contains("three"))
        .expect("added row");
    assert!(
        added.style.bg == Paint::Solid(diff_added_bg()) && added.style.fg == Paint::Inherit,
        "added row is softly green-highlighted: {:?}",
        added.style
    );
}

#[test]
fn without_colour_a_diff_is_reversed() {
    let mono = Palette { no_color: true };
    let (lines, _) = file_diff_lines("f", Some(b"two\n"), Some(b"three\n"), mono);
    for row in lines.iter().skip(1) {
        assert!(row.spans[1].style.reversed);
    }
}

#[test]
fn changes_are_counted_and_shown() {
    let change = |tag, old_index, new_index, value: &str| Change {
        tag,
        old_index,
        new_index,
        value: value.to_string(),
    };
    let changes = vec![
        change(ChangeTag::Equal, Some(0), Some(0), "one\n"),
        change(ChangeTag::Delete, Some(1), None, "two\n"),
        change(ChangeTag::Insert, None, Some(1), "three\n"),
        change(ChangeTag::Insert, None, Some(2), "four\n"),
    ];
    assert_eq!(count_changes(&changes), DiffStats { added: 2, removed: 1 });
    let (lines, stats) = render_file("f", &changes, COLOR);
    assert_eq!(stats, DiffStats { added: 2, removed: 1 });
    assert_eq!(lines.len(), 4);
    let words = vec![
        change(ChangeTag::Equal, Some(0), Some(0), "a "),
        change(ChangeTag::Delete, Some(1), None, "b"),
        change(ChangeTag::Insert, None, Some(1), "c"),
    ];
    assert_eq!(line_text(&render_words(&words, COLOR)), "a bc");
    assert_eq!(line_stats(None, Some(b"x\ny\n")), DiffStats { added: 2, removed: 0 });
    assert_eq!(line_stats(Some(b"\xff\n"), Some(b"\xfe\n")), DiffStats { added: 0, removed: 0 });
}

// ---- markdown ---------------------------------------------------------------
#[test]
fn heading_is_bold_colored() {
    let l = parse_blocks("# Title", COLOR);
    assert_eq!(plain(&l), vec!["Title".to_string()]);
    assert!(l[0].style.bold, "heading is bold");
}

#[test]
fn code_fence_body_is_plain_block() {
    let l = parse_blocks("```rust\nlet x = 1;\n```", COLOR);
    assert_eq!(
        plain(&l),
        vec![
            "┌ rust".to_string(),
            "│ let x = 1;".to_string(),
            "└".to_string()
        ]
    );
}

#[test]
fn code_fence_without_language_gets_a_bare_corner() {
    let l = parse_blocks("```\ncode\n```", COLOR);
    assert_eq!(
        plain(&l),
        vec!["┌".to_string(), "│ code".to_string(), "└".to_string()]
    );
}

#[test]
fn unordered_list_gets_a_bullet() {
    let l = parse_blocks("- one\n- two", COLOR);
    assert_eq!(plain(&l), vec!["• one".to_string(), "• two".to_string()]);
}

#[test]
fn ordered_list_keeps_its_number() {
    let l = parse_blocks("1. first\n2. second", COLOR);
    assert_eq!(
        plain(&l),
        vec!["1. first".to_string(), "2. second".to_string()]
    );
}

#[test]
fn inline_code_strong_and_emphasis() {
    let l = parse_blocks("use `fmt` for **bold** and *ital*.", COLOR);
    assert_eq!(plain(&l), vec!["use fmt for bold and ital.".to_string()]);
}

#[test]
fn link_renders_its_text() {
    let l = parse_blocks("see [docs](https://x) now", COLOR);
    assert_eq!(plain(&l), vec!["see docs now".to_string()]);
}

#[test]
fn blockquote_is_its_own_line() {
    let l = parse_blocks("> quoted", COLOR);
    assert_eq!(plain(&l), vec!["quoted".to_string()]);
}

#[test]
fn unterminated_marker_is_literal() {
    let l = parse_blocks("a **b c", COLOR);
    assert_eq!(plain(&l), vec!["a **b c".to_string()]);
}

#[test]
fn thematic_break_renders_as_a_rule() {
    for src in ["---", "***", "___", "- - -", "* * *"] {
        let l = parse_blocks(src, COLOR);
        let p = plain(&l);
        assert_eq!(l.len(), 1, "one rule line for {src:?}: {p:?}");
        assert!(p[0].chars().all(|c| c == '─'), "rule is all ─: {p:?}");
        assert!(p[0].chars().count() >= 3, "rule spans some width: {p:?}");
    }
    let l = parse_blocks("--", COLOR);
    assert_eq!(plain(&l), vec!["--".to_string()]);
}

#[test]
fn strikethrough_renders_crossed_out() {
    let l = parse_blocks("~~removed~~ stays", COLOR);
    assert_eq!(plain(&l), vec!["removed stays".to_string()]);
    let struck = l[0].spans.iter().find(|s| s.content == "removed").unwrap();
    assert!(struck.style.crossed_out, "struck text is crossed out");
    let l = parse_blocks("a ~~b c", COLOR);
    assert_eq!(plain(&l), vec!["a ~~b c".to_string()]);
}

#[test]
fn gfm_table_renders_boxed_with_aligned_columns() {
    let src = "| Name | Role |\n|------|------|\n| Ada | author |\n| Grace | engineer |";
    let l = parse_blocks(src, COLOR);
    let text = plain(&l);
    assert_eq!(text.len(), 7, "table is 7 lines: {text:?}");
    assert!(text[0].starts_with('┌'), "top border: {text:?}");
    assert!(text[0].ends_with('┐'), "top border corner: {text:?}");
    assert!(
        text.contains(&"│ Name  │ Role     │".to_string()),
        "header padded: {text:?}"
    );
    assert!(
        text.contains(&"│ Ada   │ author   │".to_string()),
        "row padded: {text:?}"
    );
    assert!(
        text.contains(&"│ Grace │ engineer │".to_string()),
        "row padded: {text:?}"
    );
    assert_eq!(
        text.iter().filter(|row| row.starts_with('├')).count(),
        2,
        "header and every data row are visually separated: {text:?}"
    );
    assert!(
        text.last().unwrap().starts_with('└'),
        "bottom border: {text:?}"
    );
}

#[test]
fn table_ends_at_a_blank_line_and_does_not_eat_following_text() {
    let src = "| a | b |\n|---|---|\n| 1 | 2 |\n\nnot a table";
    let l = parse_blocks(src, COLOR);
    let text = plain(&l);
    assert!(
        text.contains(&"not a table".to_string()),
        "text after table preserved: {text:?}"
    );
    assert!(
        !text.iter().any(|t| t.contains("not a") && t.contains("│")),
        "table didn't swallow the paragraph: {text:?}"
    );
}

#[test]
fn bare_dashes_under_a_header_are_not_a_one_column_table() {
    let src = "| a | b |\n---";
    let l = parse_blocks(src, COLOR);
    let text = plain(&l);
    assert!(
        text.contains(&"| a | b |".to_string()),
        "header stays text: {text:?}"
    );
    assert!(
        text.iter().any(|t| t.chars().all(|c| c == '─')),
        "dashes become a rule: {text:?}"
    );
}

#[test]
fn inline_spans_carry_their_styles() {
    let spans = parse_inline("a **b** *c*", COLOR);
    assert_eq!(char_count_of(&spans), 5);
    assert!(spans.iter().any(|s| s.content == "b" && s.style.bold));
    assert!(spans.iter().any(|s| s.content == "c" && s.style.italic));
}

// ---- the theme --------------------------------------------------------------
#[test]
fn the_environment_decides_the_palette() {
    assert_eq!(palette(None), COLOR);
    assert_eq!(palette(Some("")), COLOR);
    assert_eq!(palette(Some("1")), Palette { no_color: true });
    assert!(animations_enabled(None));
    assert_eq!(logo_glyph(None), DEFAULT_LOGO);
    assert_eq!(accent_rgb(), loading_color(0));
    assert_eq!(COLOR.semantic(Color::Red), Style::plain().fg(Color::Red));
    let s = Span::raw("x");
    assert_eq!(s.style, Style::plain());
}

// ---- the menu ---------------------------------------------------------------
const SECOND: u64 = 1_000_000_000;

fn info(id: &str, cwd: &str, secs: u64, prompt: &str) -> SessionInfo {
    SessionInfo {
        path: format!("/sessions/{id}.jsonl"),
        id: id.to_string(),
        cwd: cwd.to_string(),
        model: "m".to_string(),
        modified: secs * SECOND,
        first_prompt: Some(prompt.to_string()),
    }
}

fn field(name: &str, kind: FieldKind, value: &str) -> Field {
    Field {
        name: name.to_string(),
        help: "help".to_string(),
        env: "SC_X".to_string(),
        kind,
        value: value.to_string(),
        overridden: false,
        next: None,
        previous: None,
    }
}

fn settings() -> Settings {
    Settings {
        fields: vec![
            field("model", FieldKind::Model, "one"),
            field("base_url", FieldKind::Text, "https://x"),
            field("max_tokens", FieldKind::Number, "100"),
            field("mode", FieldKind::Choice, "ask"),
            field("color", FieldKind::Bool, "true"),
        ],
        models: vec!["one".to_string(), "two".to_string()],
        api_key_env: "SC_API_KEY".to_string(),
        key_source: KeySource::Unset,
    }
}

fn state_with(sessions: Vec<SessionInfo>) -> MenuState {
    MenuState::new(sessions, settings())
}

fn field_of(m: &MenuState, kind: FieldKind) -> usize {
    let i = m.settings.fields.iter().position(|f| f.kind == kind).unwrap();
    m.rows().iter().position(|r| *r == Row::Field(i)).unwrap()
}

#[test]
fn groups_sessions_by_directory_newest_first() {
    let projects = group_projects(vec![
        info("a", "/work/one", 100, "older one"),
        info("b", "/work/two", 500, "newest overall"),
        info("c", "/work/one", 300, "newer one"),
    ]);
    assert_eq!(projects.len(), 2, "two distinct directories");
    assert_eq!(projects[0].dir, "/work/two", "most recent project leads");
    assert_eq!(projects[1].dir, "/work/one");
    let ids: Vec<&str> = projects[1].sessions.iter().map(|s| s.id.as_str()).collect();
    assert_eq!(
        ids,
        vec!["c", "a"],
        "sessions newest first within a project"
    );
}

#[test]
fn project_name_is_the_directory_leaf() {
    let projects = group_projects(vec![info("a", "/home/d/subconscious-code", 1, "x")]);
    assert_eq!(projects[0].name(), "subconscious-code");
}

#[test]
fn selection_wraps_in_both_directions() {
    let mut m = state_with(vec![info("a", "/w/one", 1, "x")]);
    m.goto(MenuPage::Root);
    let n = m.rows().len();
    assert!(n >= 2);
    m.move_selection(-1);
    assert_eq!(m.selected, n - 1, "up from the top wraps to the bottom");
    m.move_selection(1);
    assert_eq!(m.selected, 0, "and back around");
}

#[test]
fn sessions_page_offers_a_new_session_row() {
    let mut m = state_with(vec![
        info("a", "/w/one", 1, "x"),
        info("b", "/w/one", 2, "y"),
    ]);
    m.goto(MenuPage::Sessions("/w/one".to_string()));
    let rows = m.rows();
    assert_eq!(rows.len(), 3, "two sessions + new: {rows:?}");
    assert_eq!(rows[2], Row::NewSession("/w/one".to_string()));
}

#[test]
fn back_walks_up_then_signals_close() {
    let mut m = state_with(vec![info("a", "/w/one", 1, "x")]);
    m.goto(MenuPage::Sessions("/w/one".to_string()));
    assert!(m.back());
    assert_eq!(m.page, MenuPage::Projects);
    assert!(m.back());
    assert_eq!(m.page, MenuPage::Root);
    assert!(!m.back(), "root has nowhere to go; the caller closes");
}

#[test]
fn begin_edit_only_opens_a_buffer_for_typed_fields() {
    let mut m = state_with(vec![]);
    m.goto(MenuPage::Settings);
    m.selected = field_of(&m, FieldKind::Text);
    m.begin_edit();
    assert!(m.editing.is_some(), "a text field opens an editor");
    m.goto(MenuPage::Settings);
    m.selected = field_of(&m, FieldKind::Choice);
    m.begin_edit();
    assert!(
        m.editing.is_none(),
        "a choice field cycles instead of opening an editor"
    );
}

#[test]
fn model_editor_starts_empty_but_text_fields_prefill() {
    let mut m = state_with(vec![]);
    m.goto(MenuPage::Settings);
    m.selected = field_of(&m, FieldKind::Model);
    m.begin_edit();
    assert_eq!(
        m.editing.as_deref(),
        Some(""),
        "adding a model starts from a blank buffer"
    );
    m.goto(MenuPage::Settings);
    m.selected = field_of(&m, FieldKind::Text);
    m.begin_edit();
    assert!(
        m.editing.as_deref().is_some_and(|b| !b.is_empty()),
        "a plain text field prefills its current value for editing"
    );
}

#[test]
fn cycling_a_lone_model_explains_itself() {
    let mut m = state_with(vec![]);
    m.goto(MenuPage::Settings);
    m.selected = field_of(&m, FieldKind::Model);
    m.settings.models = vec!["one".to_string()];
    assert_eq!(m.cycle_current(true), None);
    assert!(
        m.status
            .as_deref()
            .is_some_and(|s| s.contains("only one saved model")),
        "expected an explanation, got {:?}",
        m.status
    );
}

#[test]
fn remove_model_is_a_noop_on_other_fields() {
    let mut m = state_with(vec![]);
    m.goto(MenuPage::Settings);
    m.selected = field_of(&m, FieldKind::Number);
    assert_eq!(m.remove_current_model(), None);
    assert!(
        m.status.is_none(),
        "no action on a non-model field, got {:?}",
        m.status
    );
}

#[test]
fn ago_reads_coarsely() {
    let base = 1_000_000 * SECOND;
    assert_eq!(ago(base, base), "just now");
    assert_eq!(ago(base, base + 120 * SECOND), "2m ago");
    assert_eq!(ago(base, base + 7200 * SECOND), "2h ago");
    assert_eq!(ago(base, base + 172_800 * SECOND), "2d ago");
    assert_eq!(ago(base + 60 * SECOND, base), "just now");
}

#[test]
fn a_menu_writes_what_was_chosen() {
    let mut m = state_with(vec![]);
    m.goto(MenuPage::Settings);
    m.selected = field_of(&m, FieldKind::Model);
    m.settings.fields[0].next = Some("two".to_string());
    assert_eq!(
        m.remove_current_model(),
        Some(SettingsWrite::RemoveModel { value: "one".to_string() })
    );
    assert_eq!(
        m.cycle_current(true),
        Some(SettingsWrite::AddModel { field: 0, value: "two".to_string() })
    );
    m.selected = field_of(&m, FieldKind::Choice);
    m.settings.fields[3].previous = Some("plan".to_string());
    assert_eq!(
        m.cycle_current(false),
        Some(SettingsWrite::Assign { field: 3, value: "plan".to_string() })
    );
    m.selected = field_of(&m, FieldKind::Model);
    m.begin_edit();
    assert!(m.paste("three"));
    assert_eq!(
        m.commit("three"),
        Some(SettingsWrite::AddModel { field: 0, value: "three".to_string() })
    );
    m.cancel_edit();
    assert_eq!(m.editing, None);
    m.begin_api_key_edit();
    assert_eq!(m.commit("k"), Some(SettingsWrite::SaveKey { value: "k".to_string() }));
    m.key_saved(Ok(Outcome::NewIn("/w".to_string())));
    assert_eq!(m.pending_outcome, Some(Outcome::NewIn("/w".to_string())));
    m.refresh(vec![info("a", "/w", 1, "x")], settings());
    assert_eq!(m.projects.len(), 1);
    assert_eq!(m.find_project("/w"), Some(0));
}

#[test]
fn a_mention_begins_after_any_white_space() {
    let file = || {
        vec![DirEntry { name: "src".to_string(), is_dir: true }]
    };
    for buffer in ["@sr", "see @sr", "see\n@sr", "see\t@sr"] {
        let c = complete(buffer, &file()).expect(buffer);
        assert_eq!(c.candidates, vec!["src/".to_string()], "{buffer:?}");
    }
    assert!(complete("me@sr", &file()).is_none());
    assert!(complete("@sr c", &file()).is_none());
    assert!(complete("@sr\nc", &file()).is_none());
}

#[test]
fn a_code_span_closes_at_a_run_of_the_same_length() {
    let l = parse_inline("`a``b`c", COLOR);
    let texts: Vec<&str> = l.iter().map(|s| s.content.as_str()).collect();
    assert_eq!(texts, vec!["a``b", "c"]);
    let l = parse_inline("``a`b``", COLOR);
    let texts: Vec<&str> = l.iter().map(|s| s.content.as_str()).collect();
    assert_eq!(texts, vec!["a`b"]);
}
