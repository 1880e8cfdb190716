//! What the lines around the transcript and the menu say, case by case.
use crate::chrome::{
    cell_sum,
    cells_text,
    composed,
    counted,
    fitting,
    harvested,
    mode_label,
    mode_look,
    popup_area,
    popup_lines,
    position_from,
    question,
    rate_spans,
    row_selection,
    selected_columns,
    selection_text,
    session_at,
    session_from,
    shortened,
    spinner,
    spread,
    thinking_label,
    welcome,
    StreamRate,
};
use crate::fit::cells;
use crate::markup::{times, told};
use crate::menu::{
    age,
    grouped,
    listing,
    project_from,
    FieldKind,
    KeySource,
    MenuView,
    PageView,
    ProjectView,
    RowView,
    SessionView,
    WriteView,
};
use crate::paths::{place_name, same_place};
use crate::screen::Area;
use crate::styled::{raw, Color, Paint, SpanView};
use crate::text::{byte_len, decimal, lemma_char_at, pad_left, pad_right, trim, trim_end};
use crate::theme::{first_mark, Palette};
use crate::view::{AgentMode, AskView, ChoiceView, PasteMarker, ViewModel};
use vstd::prelude::*;
use vstd::string::*;

verus! {

// ---- small texts ------------------------------------------------------------
/// One thing is named in the singular, any other number of things in the plural.
pub proof fn things_are_counted(n: nat, word: Seq<char>)
    ensures
        counted(1, word) == seq!['1', ' '] + word,
        n != 1 ==> counted(n, word) == decimal(n) + seq![' '] + word + seq!['s'],
{
    reveal_strlit("1 ");
    reveal_strlit(" ");
    reveal_strlit("s");
    assert("1 "@ =~= seq!['1', ' ']);
    assert(" "@ =~= seq![' ']);
    assert("s"@ =~= seq!['s']);
}

proof fn lemma_fitting(s: Seq<char>, room: int)
    requires
        room >= 0,
    ensures
        fitting(s, room) <= s.len(),
        cell_sum(s.take(fitting(s, room) as int)) <= room,
        fitting(s, room) < s.len() ==> cell_sum(s.take(fitting(s, room) as int)) + cells(
            seq![s[fitting(s, room) as int]],
        ) > room,
    decreases s.len(),
{
    reveal_with_fuel(cell_sum, 2);
    if s.len() == 0 || cells(seq![s[0]]) > room {
        assert(s.take(0) =~= Seq::<char>::empty());
    } else {
        let w = cells(seq![s[0]]) as int;
        lemma_fitting(s.skip(1), room - w);
        let k = fitting(s.skip(1), room - w) as int;
        assert(s.take(k + 1).skip(1) =~= s.skip(1).take(k));
        assert(s.take(k + 1)[0] == s[0]);
        if k + 1 < s.len() {
            assert(s.skip(1)[k] == s[k + 1]);
        }
    }
}

/// A text that is too wide is cut behind the last character that leaves a cell for
/// the ellipsis.
pub proof fn a_text_is_cut_as_late_as_can_be(s: Seq<char>, max: nat)
    requires
        max > 0,
        cells(s) > max,
    ensures
        ({
            let k = shortened(s, max).len() - 1;
            &&& 0 <= k <= s.len()
            &&& shortened(s, max) == s.take(k).push('…')
            &&& cell_sum(s.take(k)) <= max - 1
            &&& k < s.len() ==> cell_sum(s.take(k)) + cells(seq![s[k]]) > max - 1
        }),
{
    lemma_fitting(s, max - 1);
}

/// Every mode has its name and its colour.
pub proof fn modes_have_names_and_colours(p: Palette)
    ensures
        mode_label(AgentMode::Default) == "default"@,
        mode_label(AgentMode::AcceptEdits) == "accept-edits"@,
        mode_label(AgentMode::Plan) == "plan"@,
        mode_label(AgentMode::Ask) == "ask"@,
        mode_label(AgentMode::Auto) == "auto"@,
        !p.no_color ==> {
            &&& mode_look(AgentMode::Default, p).fg == Paint::Solid(Color::DarkGray)
            &&& mode_look(AgentMode::AcceptEdits, p).fg == Paint::Solid(Color::Green)
            &&& mode_look(AgentMode::Plan, p).fg == Paint::Solid(Color::Cyan)
            &&& mode_look(AgentMode::Ask, p).fg == Paint::Solid(Color::Yellow)
            &&& mode_look(AgentMode::Auto, p).fg == Paint::Solid(Color::Red)
        },
{
}

// ---- what is going on -------------------------------------------------------
/// The mark in the eight phases, forty-five milliseconds each.
pub proof fn the_mark_turns(start: u64, turns: nat, phase: nat, rest: nat, p: Palette)
    requires
        phase < 8,
        rest < 45_000_000,
        start + (turns * 8 + phase) * 45_000_000 + rest <= u64::MAX,
    ensures
        ({
            let now = (start + (turns * 8 + phase) * 45_000_000 + rest) as u64;
            let sp = spinner(Some(start), now, true, p);
            &&& phase == 0 || phase == 4 ==> sp.content == "✻"@
            &&& phase == 2 || phase == 6 ==> sp.content == "✼"@
            &&& phase % 2 == 1 ==> sp.content == "✽"@
            &&& !p.no_color ==> sp.style.fg == Paint::Solid(
                if phase == 0 {
                    Color::Rgb(255, 92, 39)
                } else if phase == 1 {
                    Color::Rgb(255, 119, 42)
                } else if phase == 2 {
                    Color::Rgb(255, 151, 49)
                } else if phase == 3 {
                    Color::Rgb(255, 190, 69)
                } else if phase == 4 {
                    Color::Rgb(255, 215, 112)
                } else if phase == 5 {
                    Color::Rgb(255, 165, 55)
                } else if phase == 6 {
                    Color::Rgb(255, 112, 39)
                } else {
                    Color::Rgb(184, 74, 30)
                },
            )
            &&& spinner(Some(start), now, false, p) == SpanView {
                content: "✻"@,
                style: p.accent(),
            }
        }),
{
    let t = (turns * 8 + phase) * 45_000_000 + rest;
    assert(t / 1_000_000 / 45 == turns * 8 + phase) by (nonlinear_arith)
        requires
            t == (turns * 8 + phase) * 45_000_000 + rest,
            rest < 45_000_000,
    ;
    assert((turns * 8 + phase) % 8 == phase) by (nonlinear_arith)
        requires
            phase < 8,
    ;
}

/// The seconds of thinking are whole seconds since it began, none before.
pub proof fn thinking_is_told_in_seconds(start: u64, secs: nat, rest: nat)
    requires
        rest < 1_000_000_000,
        start + secs * 1_000_000_000 + rest <= u64::MAX,
    ensures
        thinking_label(Some(start), (start + secs * 1_000_000_000 + rest) as u64)
            == "Marathoning · "@ + decimal(secs) + "s"@,
        thinking_label(None, start) == "Marathoning · "@ + decimal(0) + "s"@,
{
    let t = secs * 1_000_000_000 + rest;
    assert(t / 1_000_000_000 == secs) by (nonlinear_arith)
        requires
            t == secs * 1_000_000_000 + rest,
            rest < 1_000_000_000,
    ;
}

/// The row of a running tool names it, and says the seconds once there are any.
pub proof fn a_running_tool_is_named(
    m: ViewModel,
    start: u64,
    secs: nat,
    rest: nat,
    motion: bool,
    p: Palette,
)
    requires
        m.turn_started == Some(start),
        rest < 1_000_000_000,
        start + secs * 1_000_000_000 + rest <= u64::MAX,
    ensures
        ({
            let now = (start + secs * 1_000_000_000 + rest) as u64;
            let tool = if m.running_tool is Some {
                m.running_tool->0
            } else {
                "tool"@
            };
            let l = m.running_line(now, motion, p);
            &&& l.spans.len() == 3
            &&& secs == 0 ==> l.spans[2].content == " "@ + (tool + "…"@)
            &&& secs > 0 ==> l.spans[2].content == " "@ + (tool + "… "@ + decimal(secs) + "s"@)
        }),
{
    let t = secs * 1_000_000_000 + rest;
    assert(t / 1_000_000_000 == secs) by (nonlinear_arith)
        requires
            t == secs * 1_000_000_000 + rest,
            rest < 1_000_000_000,
    ;
}

/// The hint at the right: what was copied for three seconds, else where the held
/// view stands, else what Escape would do.
pub proof fn what_the_hint_says(m: ViewModel, notice: Seq<char>, at: u64, now: u64, p: Palette)
    requires
        m.copy_notice is None || m.copy_notice == Some((notice, at)),
    ensures
        m.copy_notice is Some && now - at < 3_000_000_000 ==> m.hint(now, p) == seq![
            (SpanView { content: notice, style: p.accent() }),
        ],
        (m.copy_notice is None || now - at >= 3_000_000_000) && m.follow ==> {
            &&& m.busy ==> told(m.hint(now, p)) == "Esc interrupt"@
            &&& !m.busy && m.composer.len() > 0 ==> told(m.hint(now, p)) == "Esc clear"@
            &&& !m.busy && m.composer.len() == 0 ==> m.hint(now, p).len() == 0
        },
{
    reveal_with_fuel(told, 3);
    reveal_strlit("Esc ");
    reveal_strlit("interrupt");
    reveal_strlit("clear");
    reveal_strlit("Esc interrupt");
    reveal_strlit("Esc clear");
    let h = m.hint(now, p);
    if h.len() == 2 {
        assert(h.drop_last().drop_last() =~= Seq::<SpanView>::empty());
        assert(h.drop_last().last() == h[0]);
    }
    if m.follow && m.busy && h.len() == 2 {
        assert(told(h) =~= "Esc interrupt"@);
    }
    if m.follow && !m.busy && m.composer.len() > 0 && h.len() == 2 {
        assert(told(h) =~= "Esc clear"@);
    }
}

/// Nothing is said of the stream while the session rests; while it works, that it
/// reasons, that it streams, and after a second how fast.
pub proof fn what_is_said_of_the_stream(m: ViewModel, now: u64, label: Seq<char>, p: Palette)
    ensures
        !m.busy ==> rate_spans(m.rate(now), label, p).len() == 0,
        m.busy && m.current_text.len() == 0 && m.current_reasoning.len() == 0 ==> rate_spans(
            m.rate(now),
            label,
            p,
        ).len() == 0,
        m.busy && m.current_text.len() == 0 && m.current_reasoning.len() > 0 ==> rate_spans(
            m.rate(now),
            label,
            p,
        ) == seq![(SpanView { content: " ↑ reasoning"@, style: p.chrome() })],
        m.busy && m.current_text.len() > 0 && m.stream_started is Some ==> {
            let t = now - m.stream_started->0;
            &&& t < 1_000_000_000 ==> rate_spans(m.rate(now), label, p) == seq![
                (SpanView { content: " ↑ streaming"@, style: p.chrome() }),
            ]
            &&& t >= 1_000_000_000 ==> m.rate(now) == (StreamRate::Measured {
                chars: m.stream_chars,
                nanos: t as u64,
            }) && rate_spans(m.rate(now), label, p) == seq![
                (SpanView { content: " ↑ "@ + label + " tok/s"@, style: p.accent() }),
            ]
        },
{
}

/// The status line names the place and the mode, in this order, and starts with
/// what is going on while the session works.
pub proof fn what_the_status_says(
    m: ViewModel,
    now: u64,
    motion: bool,
    tokens: Seq<char>,
    cached: Seq<char>,
    rate: Seq<char>,
    p: Palette,
)
    requires
        !m.busy,
    ensures
        ({
            let s = m.status(now, motion, tokens, cached, rate, p);
            &&& s.len() >= 4
            &&& s[0] == raw(" "@)
            &&& s[1] == SpanView { content: m.location, style: p.body() }
            &&& s[2] == SpanView { content: " · "@, style: p.chrome() }
            &&& s[3] == SpanView { content: mode_label(m.mode), style: mode_look(m.mode, p) }
            &&& m.context_tokens is None ==> s.len() == 4
            &&& m.context_tokens is Some && !m.context_tokens_estimated ==> s.len() >= 7
                && s[4].content == " · ctx: "@ && s[5].content == tokens && s[6].content
                == " tok"@
            &&& m.context_tokens is Some && m.context_tokens_estimated ==> s.len() >= 8
                && s[4].content == " · ctx: "@ && s[5].content == "~"@ && s[6].content == tokens
                && s[7].content == " tok"@
            &&& m.context_tokens is Some ==> (s.last().content == " · "@ + cached + " cached"@)
                == (m.cache_hit_rate is Some)
        }),
{
    reveal_strlit(" · ");
    reveal_strlit(" tok");
    reveal_strlit(" cached");
    assert((" · "@ + cached + " cached"@).len() != " tok"@.len());
}

/// While the session works the status line starts with the mark and the seconds,
/// or a word before the first.
pub proof fn the_status_starts_with_the_work(
    m: ViewModel,
    start: u64,
    secs: nat,
    rest: nat,
    motion: bool,
    p: Palette,
)
    requires
        m.busy,
        m.turn_started == Some(start),
        rest < 1_000_000_000,
        start + secs * 1_000_000_000 + rest <= u64::MAX,
    ensures
        ({
            let now = (start + secs * 1_000_000_000 + rest) as u64;
            let a = m.activity(now, motion, p);
            &&& a.len() == 4
            &&& a[0] == spinner(Some(start), now, motion, p)
            &&& a[1].content == " "@
            &&& secs == 0 ==> a[2].content == "working"@
            &&& secs > 0 ==> a[2].content == decimal(secs) + "s"@
            &&& a[3].content == " · "@
        }),
{
    let t = secs * 1_000_000_000 + rest;
    assert(t / 1_000_000_000 == secs) by (nonlinear_arith)
        requires
            t == secs * 1_000_000_000 + rest,
            rest < 1_000_000_000,
    ;
}

/// The left side stays on the left, the right side on the right, with a space
/// between them at least.
pub proof fn two_sides_are_kept_apart(left: Seq<SpanView>, right: Seq<SpanView>, width: nat)
    ensures
        ({
            let l = spread(left, right, width);
            let n = left.len() as int;
            &&& l.spans.len() == n + 1 + right.len()
            &&& l.spans.take(n) == left
            &&& l.spans.skip(n + 1) == right
            &&& l.spans[n].content.len() > 0
            &&& forall|i: int| 0 <= i < l.spans[n].content.len() ==> #[trigger] l.spans[n].content[i]
                == ' '
        }),
{
    let l = spread(left, right, width);
    let n = left.len() as int;
    assert(l.spans.take(n) =~= left);
    assert(l.spans.skip(n + 1) =~= right);
}

// ---- the composer -----------------------------------------------------------
/// A composed text shows as it is; a pasted piece shows as the number of its
/// lines, between what stands before it and behind it.
pub proof fn a_paste_shows_as_its_lines(
    a: Seq<char>,
    b: Seq<char>,
    c: Seq<char>,
    lines: usize,
    p: Palette,
)
    requires
        a.len() > 0,
        b.len() > 0,
        c.len() > 0,
        byte_len(a) + byte_len(b) + byte_len(c) <= usize::MAX,
    ensures
        composed(a, Seq::empty(), 0, 0, p) == seq![raw(a)],
        ({
            let m = PasteMarker {
                start: byte_len(a) as usize,
                end: (byte_len(a) + byte_len(b)) as usize,
                lines,
            };
            composed(a + b + c, seq![m], 0, 0, p) == seq![
                raw(a),
                (SpanView {
                    content: "[pasted "@ + decimal(lines as nat) + " lines]"@,
                    style: p.chrome(),
                }),
                raw(c),
            ]
        }),
{
    reveal_with_fuel(composed, 3);
    crate::text::lemma_byte_len_add(a, b);
    crate::text::lemma_byte_len_add(a + b, c);
    lemma_some_bytes(a);
    lemma_some_bytes(b);
    lemma_some_bytes(c);
    let s = a + b + c;
    let i = byte_len(a) as int;
    let j = i + byte_len(b);
    assert(s.take(0) =~= Seq::<char>::empty());
    assert(s.take(a.len() as int) =~= a);
    assert(s.take(a.len() + b.len() as int) =~= a + b);
    assert(a.take(0) =~= Seq::<char>::empty());
    lemma_char_at(s, 0, 0);
    lemma_char_at(s, a.len() as int, i);
    lemma_char_at(s, a.len() + b.len() as int, j);
    lemma_char_at(a, 0, 0);
    assert(s.subrange(0, a.len() as int) =~= a);
    assert(s.skip(a.len() + b.len() as int) =~= c);
    assert(a.skip(0) =~= a);
    let m = PasteMarker { start: i as usize, end: j as usize, lines };
    assert(composed(s, seq![m], 0, 0, p) =~= seq![
        raw(a),
        (SpanView {
            content: "[pasted "@ + decimal(lines as nat) + " lines]"@,
            style: p.chrome(),
        }),
        raw(c),
    ]);
}

proof fn lemma_some_bytes(s: Seq<char>)
    ensures
        byte_len(s) >= s.len(),
    decreases s.len(),
{
    if s.len() > 0 {
        lemma_some_bytes(s.skip(1));
    }
}

/// The caret is lit for a second after a key, and where nothing moves; else it is
/// lit and dim by turns of five hundred and thirty milliseconds.
pub proof fn the_caret_blinks(m: ViewModel, turns: nat, rest: nat, motion: bool, p: Palette)
    requires
        rest < 530_000_000,
        m.process_started + turns * 530_000_000 + rest <= u64::MAX,
    ensures
        ({
            let now = (m.process_started + turns * 530_000_000 + rest) as u64;
            let lit = SpanView { content: "█"@, style: p.accent() };
            let dim = SpanView { content: "█"@, style: p.chrome() };
            &&& !motion ==> m.caret(now, motion, p) == lit
            &&& m.last_input is Some && now - m.last_input->0 < 1_000_000_000 ==> m.caret(
                now,
                motion,
                p,
            ) == lit
            &&& motion && (m.last_input is None || now - m.last_input->0 >= 1_000_000_000)
                ==> m.caret(now, motion, p) == (if turns % 2 == 0 {
                lit
            } else {
                dim
            })
        }),
{
    let t = turns * 530_000_000 + rest;
    assert(t / 1_000_000 / 530 == turns) by (nonlinear_arith)
        requires
            t == turns * 530_000_000 + rest,
            rest < 530_000_000,
    ;
}

/// An empty composer invites a prompt; one with text shows the text between the
/// sign and the caret.
pub proof fn what_the_composer_shows(m: ViewModel, now: u64, motion: bool, p: Palette)
    requires
        m.paste_markers.len() == 0,
    ensures
        ({
            let s = m.composer_row(now, motion, p).spans;
            &&& s.len() == 3
            &&& s[0] == SpanView { content: "> "@, style: p.chrome() }
            &&& m.composer.len() == 0 ==> s[1] == m.caret(now, motion, p) && s[2].content
                == " type a prompt"@
            &&& m.composer.len() > 0 ==> s[1] == raw(m.composer) && s[2] == m.caret(now, motion, p)
        }),
{
    if m.composer.len() > 0 {
        lemma_some_bytes(m.composer);
        assert(m.composer.take(0) =~= Seq::<char>::empty());
        lemma_char_at(m.composer, 0, 0);
        assert(m.composer.skip(0) =~= m.composer);
    }
}

// ---- popups -----------------------------------------------------------------
/// The popup stands above the composer, as wide as it up to forty cells, and is
/// high enough for eight candidates at most and its border.
pub proof fn where_the_popup_stands(count: int, composer: Area)
    requires
        count > 0,
        composer.y > 0,
    ensures
        ({
            let a = popup_area(count, composer);
            &&& a.x == composer.x
            &&& a.y + a.height == composer.y
            &&& a.width == (if composer.width < 40 {
                composer.width
            } else {
                40
            })
            &&& composer.y >= 10 && count >= 8 ==> a.height == 10
            &&& composer.y >= 10 && count < 8 ==> a.height == count + 2
            &&& a.height <= 10
        }),
{
}

/// All candidates show where there is room for them, in order, and the selected
/// one alone has the sign.
pub proof fn candidates_show_in_order(c: ChoiceView, rows: int, k: int, p: Palette)
    requires
        0 <= c.selected < c.completion.candidates.len(),
        c.completion.candidates.len() <= rows,
        0 <= k < c.completion.candidates.len(),
    ensures
        popup_lines(c, rows, p).len() == c.completion.candidates.len(),
        popup_lines(c, rows, p)[k].spans == seq![
            raw(
                (if k == c.selected {
                    "▶ "@
                } else {
                    "  "@
                }) + c.completion.candidates[k],
            ),
        ],
        popup_lines(c, rows, p)[k].style == (if k == c.selected {
            p.menu_selected()
        } else {
            p.code()
        }),
{
}

/// A question names the tool and the reason, and the four answers with their keys.
pub proof fn what_a_question_says(a: AskView, p: Palette)
    ensures
        question(a, p).len() == 2,
        told(question(a, p)[0].spans) == "⚠ "@ + a.tool + ": "@ + a.reason,
        told(question(a, p)[1].spans) == " [y]once  [s]ession  [a]lways  [n]o"@,
        !p.no_color ==> {
            &&& question(a, p)[1].spans[0].style.fg == Paint::Solid(Color::Green)
            &&& question(a, p)[1].spans[3].style.fg == Paint::Solid(Color::Red)
        },
{
    reveal_strlit(" [y]once  ");
    reveal_strlit("[s]ession  ");
    reveal_strlit("[a]lways  ");
    reveal_strlit("[n]o");
    reveal_strlit(" [y]once  [s]ession  [a]lways  [n]o");
    lemma_told_four(question(a, p)[0].spans);
    lemma_told_four(question(a, p)[1].spans);
    assert(told(question(a, p)[1].spans) =~= " [y]once  [s]ession  [a]lways  [n]o"@);
}

proof fn lemma_told_four(s: Seq<SpanView>)
    requires
        s.len() == 4,
    ensures
        told(s) == s[0].content + s[1].content + s[2].content + s[3].content,
{
    reveal_with_fuel(told, 5);
    let a = s.drop_last();
    let b = a.drop_last();
    let c = b.drop_last();
    assert(c.drop_last() =~= Seq::<SpanView>::empty());
    assert(c.last() == s[0]);
    assert(b.last() == s[1]);
    assert(a.last() == s[2]);
    assert(told(c) =~= s[0].content);
}

// ---- the menu ---------------------------------------------------------------
/// How long ago something was: in minutes below an hour, in hours below a day, in
/// days from then on, always whole ones that have passed.
pub proof fn ages_are_told_in_their_unit(t: nat, n: nat, rest: nat)
    ensures
        rest < 60_000_000_000 ==> age(t as int, (t + rest) as int) == "just now"@,
        age((t + n) as int, t as int) == "just now"@,
        1 <= n < 60 && rest < 60_000_000_000 ==> age(t as int, (t + n * 60_000_000_000 + rest) as int)
            == decimal(n) + "m ago"@,
        1 <= n < 24 && rest < 3_600_000_000_000 ==> age(
            t as int,
            (t + n * 3_600_000_000_000 + rest) as int,
        ) == decimal(n) + "h ago"@,
        1 <= n && rest < 86_400_000_000_000 ==> age(
            t as int,
            (t + n * 86_400_000_000_000 + rest) as int,
        ) == decimal(n) + "d ago"@,
{
    if 1 <= n < 60 && rest < 60_000_000_000 {
        let d = n * 60_000_000_000 + rest;
        assert(60 <= d / 1_000_000_000 < 3_600 && d / 1_000_000_000 / 60 == n) by (nonlinear_arith)
            requires
                d == n * 60_000_000_000 + rest,
                rest < 60_000_000_000,
                1 <= n < 60,
        ;
        assert((t + n * 60_000_000_000 + rest) - t == d);
    }
    if 1 <= n < 24 && rest < 3_600_000_000_000 {
        let d = n * 3_600_000_000_000 + rest;
        assert(3_600 <= d / 1_000_000_000 < 86_400 && d / 1_000_000_000 / 3_600 == n)
            by (nonlinear_arith)
            requires
                d == n * 3_600_000_000_000 + rest,
                rest < 3_600_000_000_000,
                1 <= n < 24,
        ;
        assert((t + n * 3_600_000_000_000 + rest) - t == d);
    }
    if 1 <= n && rest < 86_400_000_000_000 {
        let d = n * 86_400_000_000_000 + rest;
        assert(86_400 <= d / 1_000_000_000 && d / 1_000_000_000 / 86_400 == n) by (nonlinear_arith)
            requires
                d == n * 86_400_000_000_000 + rest,
                rest < 86_400_000_000_000,
                1 <= n,
        ;
        assert((t + n * 86_400_000_000_000 + rest) - t == d);
    }
    if rest < 60_000_000_000 {
        assert(rest / 1_000_000_000 < 60);
    }
}

proof fn lemma_project_found(projects: Seq<ProjectView>, dir: Seq<char>, i: int, k: int)
    requires
        0 <= i <= k < projects.len(),
        same_place(projects[k].dir, dir),
        forall|j: int| i <= j < k ==> !same_place((#[trigger] projects[j]).dir, dir),
    ensures
        project_from(projects, dir, i) == Some(k),
    decreases k - i,
{
    if i < k {
        assert(!same_place(projects[i].dir, dir));
        lemma_project_found(projects, dir, i + 1, k);
    }
}

/// Every page lists what it is for: the root its two pages, the key and the way
/// out; the projects in order; a project's sessions in order and a new one at the
/// end; the settings in order.
pub proof fn pages_list_their_rows(m: MenuView, k: int)
    ensures
        m.page == PageView::Root ==> m.rows() == seq![
            RowView::Goto(PageView::Projects),
            RowView::Goto(PageView::Settings),
            RowView::ChangeApiKey,
            RowView::Close,
        ],
        m.page == PageView::Projects ==> {
            &&& m.rows().len() == m.projects.len()
            &&& 0 <= k < m.projects.len() ==> m.rows()[k] == RowView::Project(m.projects[k].dir)
        },
        m.page == PageView::Settings ==> {
            &&& m.rows().len() == m.settings.fields.len()
            &&& 0 <= k < m.settings.fields.len() ==> m.rows()[k] == RowView::Field(k)
        },
{
}

/// The page of a project lists its sessions in order, and a new one at the end.
pub proof fn a_project_lists_its_sessions(m: MenuView, dir: Seq<char>, g: int, k: int)
    requires
        m.page == PageView::Sessions(dir),
        0 <= g < m.projects.len(),
        same_place(m.projects[g].dir, dir),
        forall|j: int| 0 <= j < g ==> !same_place((#[trigger] m.projects[j]).dir, dir),
    ensures
        m.rows().len() == m.projects[g].sessions.len() + 1,
        m.rows().last() == RowView::NewSession(dir),
        0 <= k < m.projects[g].sessions.len() ==> m.rows()[k] == RowView::Session(
            m.projects[g].sessions[k].path,
        ),
{
    lemma_project_found(m.projects, dir, 0, g);
}

/// Sessions are listed by where they ran, the newest first, and so are the places
/// by their newest session.
pub proof fn the_newest_comes_first(
    s: Seq<SessionView>,
    projects: Seq<ProjectView>,
    g: int,
    h: int,
    a: int,
    b: int,
)
    requires
        listing(s, projects),
        0 <= g <= h < projects.len(),
        0 <= a <= b < projects[g].sessions.len(),
    ensures
        projects[g].last >= projects[h].last,
        projects[g].last >= projects[g].sessions[a].modified,
        projects[g].last == projects[g].sessions[0].modified,
        projects[g].sessions[a].modified >= projects[g].sessions[b].modified,
        same_place(projects[g].sessions[a].cwd, projects[g].dir),
        s.contains(projects[g].sessions[a]),
{
    let layout = choose|layout: Seq<Seq<int>>| #[trigger] grouped(s, layout, projects);
    let ids = layout[g];
    let p = projects[g];
    assert(crate::menu::group_of(s, ids));
    assert(crate::menu::project_of(s, ids, p));
    assert(p.sessions[a] == s[ids[a]]);
    assert(p.sessions[b] == s[ids[b]]);
    assert(p.sessions[0] == s[ids[0]]);
    if a < b {
        assert(crate::menu::newer(s, ids[a], ids[b]));
    }
    if 0 < a {
        assert(crate::menu::newer(s, ids[0], ids[a]));
    }
    if g < h {
        assert(crate::menu::before(projects[g], projects[h]));
    }
    let k = choose|k: int|
        0 <= k < ids.len() && p.dir == s[#[trigger] ids[k]].cwd && forall|m: int|
            0 <= m < ids.len() ==> ids[k] <= #[trigger] ids[m];
    assert(crate::menu::same_dir(s, ids[k], ids[0]));
    assert(crate::menu::same_dir(s, ids[a], ids[0]));
}

/// No session is left out of the listing.
pub proof fn every_session_is_listed(s: Seq<SessionView>, projects: Seq<ProjectView>, i: int)
    requires
        listing(s, projects),
        0 <= i < s.len(),
    ensures
        exists|g: int, k: int|
            0 <= g < projects.len() && 0 <= k < projects[g].sessions.len()
                && #[trigger] projects[g].sessions[k] == s[i],
{
    let layout = choose|layout: Seq<Seq<int>>| #[trigger] grouped(s, layout, projects);
    assert(crate::menu::placed(layout, i));
    let g = choose|g: int| 0 <= g < layout.len() && #[trigger] layout[g].contains(i);
    let ids = layout[g];
    assert(ids.contains(i));
    let k = choose|k: int| 0 <= k < ids.len() && ids[k] == i;
    assert(crate::menu::project_of(s, ids, projects[g]));
    assert(projects[g].sessions[k] == s[i]);
}

/// One step down from the last row is the first row, and one step up from the
/// first is the last; any other step goes to the neighbour.
pub proof fn steps_wrap_around(m: MenuView)
    requires
        0 <= m.selected < m.rows().len(),
    ensures
        m.selected + 1 < m.rows().len() ==> m.moved(1).selected == m.selected + 1,
        m.selected + 1 == m.rows().len() ==> m.moved(1).selected == 0,
        m.selected > 0 ==> m.moved(-1).selected == m.selected - 1,
        m.selected == 0 ==> m.moved(-1).selected == m.rows().len() - 1,
        m.moved(1) == (MenuView { selected: m.moved(1).selected, ..m }),
{
    let n = m.rows().len() as int;
    vstd::arithmetic::div_mod::lemma_small_mod(m.selected as nat, n as nat);
    if m.selected + 1 < n {
        vstd::arithmetic::div_mod::lemma_small_mod((m.selected + 1) as nat, n as nat);
    } else {
        vstd::arithmetic::div_mod::lemma_mod_self_0(n);
    }
    if m.selected > 0 {
        vstd::arithmetic::div_mod::lemma_small_mod((m.selected - 1) as nat, n as nat);
    } else {
        vstd::arithmetic::div_mod::lemma_mod_add_multiples_vanish(-1, n);
        vstd::arithmetic::div_mod::lemma_small_mod((n - 1) as nat, n as nat);
    }
}

/// Going to a page starts at its first row, with nothing said and nothing edited.
/// The page above a project's sessions is the projects, above the others the root.
pub proof fn pages_lead_back(m: MenuView, dir: Seq<char>)
    ensures
        m.on(PageView::Settings).page == PageView::Settings,
        m.on(PageView::Settings).selected == 0,
        m.on(PageView::Settings).editing is None,
        m.on(PageView::Settings).status is None,
        m.on(PageView::Sessions(dir)).above() == Some(PageView::Projects),
        m.on(PageView::Projects).above() == Some(PageView::Root),
        m.on(PageView::Settings).above() == Some(PageView::Root),
        m.on(PageView::Root).above() is None,
{
}

/// What the editor opens on and what is written: a model starts from nothing and
/// is added to the list, any other text starts from its value and replaces it,
/// and a choice or a switch has no editor.
pub proof fn fields_are_edited_by_kind(m: MenuView, i: int, value: Seq<char>)
    requires
        m.page == PageView::Settings,
        m.selected == i,
        0 <= i < m.settings.fields.len(),
        !m.editing_api_key,
    ensures
        m.settings.fields[i].kind == FieldKind::Model ==> {
            &&& m.editing_current() == MenuView {
                editing: Some(Seq::empty()),
                status: None,
                ..m
            }
            &&& m.commitment(value) == Some(WriteView::AddModel { field: i, value })
        },
        m.settings.fields[i].kind == FieldKind::Choice || m.settings.fields[i].kind
            == FieldKind::Bool ==> m.editing_current() == m,
        m.settings.fields[i].kind != FieldKind::Model ==> m.commitment(value) == Some(
            WriteView::Assign { field: i, value },
        ),
        m.settings.fields[i].kind != FieldKind::Model && m.settings.fields[i].kind
            != FieldKind::Choice && m.settings.fields[i].kind != FieldKind::Bool
            ==> m.editing_current() == (MenuView {
            editing: Some(m.settings.fields[i].value),
            status: None,
            ..m
        }),
        m.step(true) == m.settings.fields[i].next,
        m.step(false) == m.settings.fields[i].previous,
        (MenuView { editing_api_key: true, ..m }).commitment(value) == Some(
            WriteView::SaveKey { value },
        ),
{
}

/// A fresh listing says so and keeps the selection where it can.
pub proof fn a_fresh_listing_keeps_the_selection(
    m: MenuView,
    projects: Seq<ProjectView>,
    settings: crate::menu::SettingsView,
)
    requires
        0 <= m.selected,
    ensures
        ({
            let r = m.reloaded(projects, settings);
            &&& r.projects == projects
            &&& r.settings == settings
            &&& r.page == m.page
            &&& r.status == Some("refreshed"@)
            &&& m.selected < r.rows().len() ==> r.selected == m.selected
            &&& 0 < r.rows().len() <= m.selected ==> r.selected == r.rows().len() - 1
            &&& r.rows().len() == 0 ==> r.selected == 0
        }),
{
    let r = m.reloaded(projects, settings);
    let loaded = MenuView { projects, settings, ..m };
    assert(r.find_project(Seq::empty()) == loaded.find_project(Seq::empty()));
    assert(r.rows() =~= loaded.rows());
}

/// Where the key comes from, for each source.
pub proof fn what_is_said_of_the_key(m: MenuView)
    ensures
        m.settings.key_source == KeySource::Environment ==> m.key_note() == "(set via $"@
            + m.settings.api_key_env + ")"@,
        m.settings.key_source == KeySource::File ==> m.key_note() == "(saved, ~/.sc/key)"@,
        m.settings.key_source == KeySource::Unset ==> m.key_note() == "(unset)"@,
{
}

/// The rows of the root page say where they lead.
pub proof fn what_the_root_rows_say(m: MenuView, now: u64)
    ensures
        m.row_text(RowView::Goto(PageView::Projects), now) == "Projects"@ + pad_left(
            counted(m.projects.len(), "project"@),
            12,
        ),
        m.row_text(RowView::Goto(PageView::Settings), now) == "Settings"@,
        m.row_text(RowView::ChangeApiKey, now) == pad_right("Change API key"@, 20) + " "@
            + m.key_note(),
        m.row_text(RowView::Close, now) == "Close"@,
        m.row_text(RowView::NewSession(Seq::empty()), now) == "+ New session here"@,
{
}

/// The row of a project: its name, how many sessions it has and when the newest
/// was.
pub proof fn what_a_project_row_says(m: MenuView, g: int, now: u64)
    requires
        0 <= g < m.projects.len(),
        forall|j: int|
            0 <= j < g ==> !same_place((#[trigger] m.projects[j]).dir, m.projects[g].dir),
    ensures
        m.row_text(RowView::Project(m.projects[g].dir), now) == pad_right(
            shortened(place_name(m.projects[g].dir), 28),
            28,
        ) + " "@ + pad_left(counted(m.projects[g].sessions.len(), "session"@), 12) + "  "@ + age(
            m.projects[g].last as int,
            now as int,
        ),
{
    lemma_project_found(m.projects, m.projects[g].dir, 0, g);
}

proof fn lemma_session_found(v: Seq<SessionView>, path: Seq<char>, i: int, k: int)
    requires
        0 <= i <= k < v.len(),
        same_place(v[k].path, path),
        forall|j: int| i <= j < k ==> !same_place((#[trigger] v[j]).path, path),
    ensures
        session_from(v, path, i) == Some(v[k]),
    decreases k - i,
{
    if i < k {
        assert(!same_place(v[i].path, path));
        lemma_session_found(v, path, i + 1, k);
    }
}

/// The row of a session: when it was and how it began.
pub proof fn what_a_session_row_says(m: MenuView, k: int, now: u64)
    requires
        m.projects.len() > 0,
        0 <= k < m.projects[0].sessions.len(),
        forall|j: int|
            0 <= j < k ==> !same_place(
                (#[trigger] m.projects[0].sessions[j]).path,
                m.projects[0].sessions[k].path,
            ),
    ensures
        ({
            let x = m.projects[0].sessions[k];
            m.row_text(RowView::Session(x.path), now) == pad_right(
                age(x.modified as int, now as int),
                11,
            ) + " "@ + shortened(
                if x.first_prompt is Some {
                    x.first_prompt->0
                } else {
                    "(no prompt)"@
                },
                48,
            )
        }),
{
    let x = m.projects[0].sessions[k];
    lemma_session_found(m.projects[0].sessions, x.path, 0, k);
    assert(session_at(m.projects, x.path, 0) == Some(x));
}

/// The row of a setting: its name, its value, and which variable outranks it.
pub proof fn what_a_setting_row_says(m: MenuView, i: int, now: u64)
    requires
        0 <= i < m.settings.fields.len(),
        m.settings.fields[i].kind != FieldKind::Model || m.settings.models.len() <= 1,
    ensures
        ({
            let f = m.settings.fields[i];
            m.row_text(RowView::Field(i), now) == pad_right(f.name, 20) + " "@ + shortened(
                f.value,
                30,
            ) + (if f.overridden {
                "  ($"@ + f.env + " overrides)"@
            } else {
                Seq::empty()
            })
        }),
{
    let f = m.settings.fields[i];
    let over = if f.overridden {
        "  ($"@ + f.env + " overrides)"@
    } else {
        Seq::<char>::empty()
    };
    assert(Seq::<char>::empty() + over =~= over);
}

/// The selected row alone has the sign and the colour of a selection.
pub proof fn the_selected_row_is_marked(m: MenuView, row: RowView, now: u64, p: Palette)
    ensures
        m.row_line(row, true, now, p).spans == seq![
            (SpanView { content: "> "@, style: p.accent() }),
            (SpanView { content: m.row_text(row, now), style: p.menu_selected() }),
        ],
        m.row_line(row, false, now, p).spans == seq![
            (SpanView { content: "  "@, style: p.accent() }),
            (SpanView { content: m.row_text(row, now), style: p.body() }),
        ],
{
}

/// Rows that fit all show, in order, and else so many that the selected one is
/// among them.
pub proof fn the_selected_row_shows(m: MenuView, body: int, now: u64, p: Palette, k: int)
    requires
        0 <= m.selected < m.rows().len(),
        body > 0,
    ensures
        m.rows().len() <= body && 0 <= k < m.rows().len() ==> {
            &&& m.row_lines(body, now, p).len() == m.rows().len()
            &&& m.row_lines(body, now, p)[k] == m.row_line(m.rows()[k], k == m.selected, now, p)
        },
        ({
            let start = m.first_row(body);
            &&& 0 <= start <= m.selected < start + m.row_lines(body, now, p).len()
            &&& m.row_lines(body, now, p).len() <= body
            &&& m.row_lines(body, now, p)[m.selected - start] == m.row_line(
                m.rows()[m.selected],
                true,
                now,
                p,
            )
        }),
{
}

/// The headings and the keys of the pages.
pub proof fn pages_have_headings(m: MenuView)
    ensures
        m.page == PageView::Root ==> m.heading() == "✻"@ + " Subconscious Code"@ && m.keys()
            == "↑↓ move · ↵ select · Esc close"@,
        m.page == PageView::Projects ==> m.heading() == "projects ("@ + decimal(m.projects.len())
            + ")"@ && m.keys() == "↑↓ move · ↵ open · ← back · r refresh · Esc close"@,
        m.page == PageView::Settings ==> m.heading() == "settings"@ && m.keys()
            == "↑↓ move · ↵ edit/add · ←→ change · d remove model · Esc close"@,
        m.page is Sessions ==> m.keys() == "↑↓ move · ↵ resume · ← back · Esc close"@,
{
}

/// Under the rows stands the editor while it is open, with what it saves, else
/// the keys of the page; behind them what was last said.
pub proof fn what_stands_under_the_rows(m: MenuView, p: Palette)
    requires
        0 <= m.selected,
    ensures
        m.editing is Some && !m.editing_api_key ==> {
            let f = m.footer_lines(p);
            &&& f.len() >= 2
            &&& f[0].spans[0].content == "  > "@
            &&& f[0].spans[1].content == m.editing->0
            &&& f[0].spans[2].content == "█"@
            &&& f[1].spans[0].content == "  ↵ save · Esc cancel"@
        },
        m.editing is Some && m.editing_api_key ==> {
            let f = m.footer_lines(p);
            &&& f.len() >= 2
            &&& f[0].spans[1].content == times(m.editing->0.len(), '•')
            &&& f[1].spans[0].content == "  api key · ↵ save · Esc cancel"@
        },
        m.editing is None && m.page != PageView::Settings ==> {
            let f = m.footer_lines(p);
            &&& f.len() == (if m.status is Some {
                2nat
            } else {
                1nat
            })
            &&& f[0].spans[0].content == "  "@ + m.keys()
            &&& m.status is Some ==> f[1].spans[0].content == "  "@ + m.status->0
        },
{
    if m.editing is Some {
        assert(crate::text::repeat('•', m.editing->0.len()) =~= times(m.editing->0.len(), '•'));
    }
    if m.editing is None && m.page != PageView::Settings {
        assert(m.current_field() is None) by {
            if m.current_row() is Some {
                let row = m.rows()[m.selected];
                match m.page {
                    PageView::Root => {},
                    PageView::Projects => {},
                    PageView::Sessions(dir) => {},
                    PageView::Settings => {},
                }
            }
        }
    }
}

// ---- the welcome card -------------------------------------------------------
/// The welcome card names the program and five keys.
pub proof fn what_the_welcome_card_says(glyph: Seq<char>, p: Palette)
    ensures
        ({
            let w = welcome(glyph, p);
            &&& w.len() == 8
            &&& w[0].spans[0].content == glyph + " "@
            &&& w[0].spans[1].content == "Subconscious Code"@
            &&& w[1].spans.len() == 0 && w[2].spans.len() == 0
            &&& w[3].spans[0].content == "  "@ + pad_right("@"@, 11)
            &&& w[3].spans[1].content == "mention a file"@
            &&& w[4].spans[0].content == "  "@ + pad_right("/"@, 11)
            &&& w[4].spans[1].content == "run a command — /help lists them"@
            &&& w[5].spans[0].content == "  "@ + pad_right("Shift+Tab"@, 11)
            &&& w[5].spans[1].content
                == "switch mode — default, accept edits, plan, ask, auto"@
            &&& w[6].spans[0].content == "  "@ + pad_right("Alt+↑ ↓"@, 11)
            &&& w[6].spans[1].content == "recall an earlier prompt"@
            &&& w[7].spans[0].content == "  "@ + pad_right("Ctrl+C"@, 11)
            &&& w[7].spans[1].content == "quit"@
        }),
{
}

// ---- what is selected -------------------------------------------------------
/// All cells of a row in a line, from one column to another.
pub open spec fn row_text_of(row: Seq<Seq<char>>, from: int, to: int) -> Seq<char>
    decreases to - from,
{
    if from >= to {
        Seq::empty()
    } else {
        row[from] + row_text_of(row, from + 1, to)
    }
}

proof fn lemma_cells_text(row: Seq<Seq<char>>, from: int, to: int)
    requires
        from <= to,
    ensures
        cells_text(row, from, to) == row[from] + cells_text(row, from + 1, to),
    decreases to - from,
{
    reveal_with_fuel(cells_text, 2);
    if from < to {
        lemma_cells_text(row, from, to - 1);
        assert(row[from] + cells_text(row, from + 1, to - 1) + row[to] =~= row[from] + (cells_text(
            row,
            from + 1,
            to - 1,
        ) + row[to]));
    } else {
        assert(cells_text(row, from, from - 1) =~= Seq::<char>::empty());
        assert(cells_text(row, from + 1, from) =~= Seq::<char>::empty());
        assert(cells_text(row, from, to) =~= row[from]);
        assert(row[from] + cells_text(row, from + 1, to) =~= row[from]);
    }
}

proof fn lemma_row_text(row: Seq<Seq<char>>, from: int, to: int)
    requires
        from <= to + 1,
    ensures
        cells_text(row, from, to) == row_text_of(row, from, to + 1),
    decreases to + 1 - from,
{
    if from <= to {
        lemma_cells_text(row, from, to);
        lemma_row_text(row, from + 1, to);
    }
}

/// What is selected within one row is the text from the first column to the last,
/// both included, without white space at its end.
pub proof fn a_selection_in_one_row(
    grid: Seq<Seq<Seq<char>>>,
    a: (u16, u16),
    b: (u16, u16),
)
    requires
        a.1 == b.1,
        a.0 <= b.0,
        a.1 < grid.len(),
        b.0 < grid[a.1 as int].len(),
    ensures
        selection_text(grid, a, b, b.1 as int) == trim_end(
            row_text_of(grid[a.1 as int], a.0 as int, b.0 + 1),
        ),
{
    reveal_with_fuel(selection_text, 2);
    lemma_row_text(grid[a.1 as int], a.0 as int, b.0 as int);
    let t = row_selection(grid, a, b, a.1 as int);
    assert(Seq::<char>::empty() + t =~= t);
}

/// A selection over two rows: the first from its column to the end, a newline, and
/// the second from its start to its column.
pub proof fn a_selection_over_two_rows(
    grid: Seq<Seq<Seq<char>>>,
    a: (u16, u16),
    b: (u16, u16),
)
    requires
        a.1 + 1 == b.1,
        b.1 < grid.len(),
        a.0 < grid[a.1 as int].len(),
        b.0 < grid[b.1 as int].len(),
    ensures
        selection_text(grid, a, b, b.1 as int) == trim_end(
            row_text_of(grid[a.1 as int], a.0 as int, grid[a.1 as int].len() as int),
        ) + seq!['\n'] + trim_end(row_text_of(grid[b.1 as int], 0, b.0 + 1)),
{
    reveal_with_fuel(selection_text, 3);
    let one = grid[a.1 as int];
    let two = grid[b.1 as int];
    lemma_row_text(one, a.0 as int, one.len() - 1);
    lemma_row_text(two, 0, b.0 as int);
    let t = row_selection(grid, a, b, a.1 as int);
    let u = row_selection(grid, a, b, b.1 as int);
    assert(selection_text(grid, a, b, a.1 as int) =~= t.push('\n'));
    assert(t.push('\n') + u =~= t + seq!['\n'] + u);
}

/// Rows between the first and the last are selected whole, each without the white
/// space at its end and with a newline behind it.
pub proof fn rows_in_between_are_selected_whole(
    grid: Seq<Seq<Seq<char>>>,
    a: (u16, u16),
    b: (u16, u16),
    row: int,
)
    requires
        a.1 < row < b.1,
        row < grid.len(),
        grid[row].len() > 0,
    ensures
        selection_text(grid, a, b, row) == selection_text(grid, a, b, row - 1) + trim_end(
            row_text_of(grid[row], 0, grid[row].len() as int),
        ) + seq!['\n'],
{
    lemma_row_text(grid[row], 0, grid[row].len() - 1);
    let t = row_selection(grid, a, b, row);
    let before = selection_text(grid, a, b, row - 1);
    assert((before + t).push('\n') =~= before + t + seq!['\n']);
}

// ---- notes and marks --------------------------------------------------------
proof fn lemma_position(v: Seq<Seq<char>>, t: Seq<char>, i: int, k: int)
    requires
        0 <= i <= k < v.len(),
        v[k] == t,
        forall|j: int| i <= j < k ==> #[trigger] v[j] != t,
    ensures
        position_from(v, t, i) == Some(k),
    decreases k - i,
{
    if i < k {
        assert(v[i] != t);
        lemma_position(v, t, i + 1, k);
    }
}

/// The model says where it stands among several saved ones.
pub proof fn the_model_says_where_it_stands(m: MenuView, i: int, k: int)
    requires
        0 <= i < m.settings.fields.len(),
        m.settings.fields[i].kind == FieldKind::Model,
        !m.settings.fields[i].overridden,
        m.settings.models.len() > 1,
        0 <= k < m.settings.models.len(),
        m.settings.models[k] == m.settings.fields[i].value,
        forall|j: int| 0 <= j < k ==> #[trigger] m.settings.models[j] != m.settings.fields[i].value,
    ensures
        m.field_note(i) == "  ["@ + decimal((k + 1) as nat) + "/"@ + decimal(
            m.settings.models.len(),
        ) + "]"@,
{
    lemma_position(m.settings.models, m.settings.fields[i].value, 0, k);
    let place = "  ["@ + decimal((k + 1) as nat) + "/"@ + decimal(m.settings.models.len()) + "]"@;
    assert(place + Seq::<char>::empty() =~= place);
}

/// The menu from top to bottom: its heading, a blank line, its rows, a blank line,
/// and what stands under them.
pub proof fn what_the_menu_shows(m: MenuView, height: u16, now: u64, p: Palette)
    requires
        height > 5,
        m.rows().len() > 0,
    ensures
        ({
            let out = m.overlay_lines(height, now, p);
            let rows = m.row_lines(height - 5, now, p);
            let foot = m.footer_lines(p);
            &&& out.len() == 3 + rows.len() + foot.len()
            &&& out[0].spans == seq![raw("  "@ + m.heading())]
            &&& out[1].spans.len() == 0
            &&& out.subrange(2, 2 + rows.len() as int) == rows
            &&& out[2 + rows.len() as int].spans.len() == 0
            &&& out.skip(3 + rows.len() as int) == foot
        }),
{
    let out = m.overlay_lines(height, now, p);
    let rows = m.row_lines(height - 5, now, p);
    let foot = m.footer_lines(p);
    assert(out.subrange(2, 2 + rows.len() as int) =~= rows);
    assert(out.skip(3 + rows.len() as int) =~= foot);
}

/// A menu without rows says that there are no sessions yet.
pub proof fn an_empty_menu_says_so(m: MenuView, height: u16, now: u64, p: Palette)
    requires
        m.rows().len() == 0,
    ensures
        m.overlay_lines(height, now, p)[2].spans == seq![
            raw("  no sessions yet — start one and it'll show up here"@),
        ],
{
}

/// The mark of the user's own is the first line that says something, without the
/// white space round it, cut to eight characters.
pub proof fn the_mark_is_the_first_line_that_says_something(ls: Seq<Seq<char>>, k: int)
    requires
        0 <= k < ls.len(),
        trim(ls[k]).len() > 0,
        forall|j: int| 0 <= j < k ==> trim(#[trigger] ls[j]).len() == 0,
    ensures
        trim(ls[k]).len() <= 8 ==> first_mark(ls) == Some(trim(ls[k])),
        trim(ls[k]).len() > 8 ==> first_mark(ls) == Some(trim(ls[k]).take(8)),
    decreases k,
{
    if k > 0 {
        assert(trim(ls[0]).len() == 0);
        let t = ls.skip(1);
        assert forall|j: int| 0 <= j < k - 1 implies trim(#[trigger] t[j]).len() == 0 by {
            assert(t[j] == ls[j + 1]);
        }
        the_mark_is_the_first_line_that_says_something(t, k - 1);
    } else {
        let t = trim(ls[0]);
        if t.len() <= 8 {
            assert(t.take(t.len() as int) =~= t);
        }
    }
}

/// Text whose start is not known has no rate.
pub proof fn no_start_no_rate(m: ViewModel, now: u64, label: Seq<char>, p: Palette)
    requires
        m.stream_started is None,
        m.current_text.len() > 0,
    ensures
        rate_spans(m.rate(now), label, p).len() == 0,
{
}

/// The page of a project is headed by its name and how many sessions it has; where
/// the project is gone, by its place.
pub proof fn how_a_project_is_headed(m: MenuView, dir: Seq<char>, g: int)
    requires
        m.page == PageView::Sessions(dir),
        0 <= g <= m.projects.len(),
        g < m.projects.len() ==> same_place(m.projects[g].dir, dir),
        forall|j: int| 0 <= j < g ==> !same_place((#[trigger] m.projects[j]).dir, dir),
    ensures
        g < m.projects.len() ==> m.heading() == place_name(m.projects[g].dir) + " — "@ + counted(
            m.projects[g].sessions.len(),
            "session"@,
        ),
        g == m.projects.len() ==> m.heading() == dir,
        g == m.projects.len() ==> m.rows() == seq![RowView::NewSession(dir)],
        g == m.projects.len() ==> m.row_text(RowView::Project(dir), 0) == dir,
{
    if g < m.projects.len() {
        lemma_project_found(m.projects, dir, 0, g);
    } else {
        lemma_no_project(m.projects, dir, 0);
        assert(m.rows() =~= seq![RowView::NewSession(dir)]);
    }
}

proof fn lemma_no_project(projects: Seq<ProjectView>, dir: Seq<char>, i: int)
    requires
        0 <= i <= projects.len(),
        forall|j: int| i <= j < projects.len() ==> !same_place((#[trigger] projects[j]).dir, dir),
    ensures
        project_from(projects, dir, i) is None,
    decreases projects.len() - i,
{
    if i < projects.len() {
        assert(!same_place(projects[i].dir, dir));
        lemma_no_project(projects, dir, i + 1);
    }
}

/// While the session works the status says what is going on, then the place and the
/// mode.
pub proof fn the_status_says_the_place_behind_the_work(
    m: ViewModel,
    now: u64,
    motion: bool,
    tokens: Seq<char>,
    cached: Seq<char>,
    rate: Seq<char>,
    p: Palette,
)
    requires
        m.busy,
    ensures
        ({
            let s = m.status(now, motion, tokens, cached, rate, p);
            &&& s.len() >= 8
            &&& s[0] == raw(" "@)
            &&& s.subrange(1, 5) == m.activity(now, motion, p)
            &&& s[5].content == m.location
            &&& s[6].content == " · "@
            &&& s[7].content == mode_label(m.mode)
            &&& m.context_tokens is None ==> s.skip(8) == rate_spans(m.rate(now), rate, p)
        }),
{
    let s = m.status(now, motion, tokens, cached, rate, p);
    assert(s.subrange(1, 5) =~= m.activity(now, motion, p));
    if m.context_tokens is None {
        assert(s.skip(8) =~= rate_spans(m.rate(now), rate, p));
    }
}

/// Where there are more candidates than rows, as many show as there are rows, one
/// behind the other, with the selected one among them.
pub proof fn candidates_scroll(c: ChoiceView, rows: int, k: int, p: Palette)
    requires
        0 <= c.selected < c.completion.candidates.len(),
        0 < rows < c.completion.candidates.len(),
        0 <= k < rows,
    ensures
        ({
            let out = popup_lines(c, rows, p);
            let start = crate::chrome::popup_start(
                c.selected,
                rows,
                c.completion.candidates.len() as int,
            );
            &&& out.len() == rows
            &&& 0 <= start <= c.selected < start + rows <= c.completion.candidates.len()
            &&& c.selected < rows ==> start == 0
            &&& c.selected >= rows ==> start == c.selected - rows + 1
            &&& out[k].spans == seq![
                raw(
                    (if start + k == c.selected {
                        "▶ "@
                    } else {
                        "  "@
                    }) + c.completion.candidates[start + k],
                ),
            ]
        }),
{
}

/// A paste at the end of what is composed has nothing behind it; a mark that does
/// not fit the text is passed over.
pub proof fn marks_that_fit_nothing_are_passed_over(
    a: Seq<char>,
    b: Seq<char>,
    lines: usize,
    far: PasteMarker,
    p: Palette,
)
    requires
        a.len() > 0,
        b.len() > 0,
        byte_len(a) + byte_len(b) <= usize::MAX,
        far.end > byte_len(a),
    ensures
        ({
            let m = PasteMarker {
                start: byte_len(a) as usize,
                end: (byte_len(a) + byte_len(b)) as usize,
                lines,
            };
            composed(a + b, seq![m], 0, 0, p) == seq![
                raw(a),
                (SpanView {
                    content: "[pasted "@ + decimal(lines as nat) + " lines]"@,
                    style: p.chrome(),
                }),
            ]
        }),
        composed(a, seq![far], 0, 0, p) == seq![raw(a)],
{
    reveal_with_fuel(composed, 3);
    crate::text::lemma_byte_len_add(a, b);
    lemma_some_bytes(a);
    lemma_some_bytes(b);
    let s = a + b;
    let i = byte_len(a) as int;
    let j = i + byte_len(b);
    assert(s.take(0) =~= Seq::<char>::empty());
    assert(s.take(a.len() as int) =~= a);
    assert(s.take(a.len() + b.len() as int) =~= s);
    assert(a.take(0) =~= Seq::<char>::empty());
    lemma_char_at(s, 0, 0);
    lemma_char_at(s, a.len() as int, i);
    lemma_char_at(s, a.len() + b.len() as int, j);
    lemma_char_at(a, 0, 0);
    assert(s.subrange(0, a.len() as int) =~= a);
    assert(a.skip(0) =~= a);
    let m = PasteMarker { start: i as usize, end: j as usize, lines };
    assert(composed(s, seq![m], 0, 0, p) =~= seq![
        raw(a),
        (SpanView {
            content: "[pasted "@ + decimal(lines as nat) + " lines]"@,
            style: p.chrome(),
        }),
    ]);
    assert(composed(a, seq![far], 0, 0, p) =~= seq![raw(a)]);
}

/// A selection of blanks is none; any other is its text, as far as there are rows.
pub proof fn what_a_selection_gives(grid: Seq<Seq<Seq<char>>>, a: (u16, u16), b: (u16, u16))
    requires
        b.1 < grid.len(),
    ensures
        ({
            let t = selection_text(grid, a, b, b.1 as int);
            &&& trim(t).len() == 0 ==> harvested(grid, a, b) is None
            &&& trim(t).len() > 0 ==> harvested(grid, a, b) == Some(t)
        }),
{
}

/// The columns that are marked: from where the selection starts in its first row, to
/// where it ends in its last, and whole rows between.
pub proof fn which_columns_are_marked(a: (u16, u16), b: (u16, u16), row: int, width: int)
    requires
        a.1 <= row <= b.1,
        a.0 < width,
        b.0 < width,
    ensures
        selected_columns(a, b, row, width).0 == (if row == a.1 {
            a.0 as int
        } else {
            0
        }),
        row == b.1 ==> selected_columns(a, b, row, width).1 == b.0,
        row < b.1 ==> selected_columns(a, b, row, width).1 == width - 1,
{
}

} // verus!
