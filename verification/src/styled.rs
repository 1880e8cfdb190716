//! Styled text: colours, styles, spans and lines.
//!
//! These are the plain values that the renderer paints. A [`Span`] is a run of
//! text in one style; a [`Line`] is a row of spans over a style of its own.
use crate::text::text_of;
use vstd::prelude::*;
use vstd::string::*;

verus! {

/// The colours that the front end uses.
#[derive(Debug, Clone, Copy, PartialEq, Eq, Structural)]
pub enum Color {
    Black,
    Red,
    Green,
    Yellow,
    Cyan,
    White,
    DarkGray,
    Rgb(u8, u8, u8),
}

/// A colour, or the one the terminal has.
#[derive(Debug, Clone, Copy, PartialEq, Eq, Structural)]
pub enum Paint {
    Inherit,
    Solid(Color),
}

/// How a run of text looks.
#[derive(Debug, Clone, Copy, PartialEq, Eq, Structural)]
pub struct Style {
    pub fg: Paint,
    pub bg: Paint,
    pub bold: bool,
    pub italic: bool,
    pub underlined: bool,
    pub crossed_out: bool,
    pub reversed: bool,
}

/// The style that changes nothing.
pub open spec fn plain_style() -> Style {
    Style {
        fg: Paint::Inherit,
        bg: Paint::Inherit,
        bold: false,
        italic: false,
        underlined: false,
        crossed_out: false,
        reversed: false,
    }
}

impl Style {
    /// The style that changes nothing.
    pub fn plain() -> (s: Self)
        ensures
            s == plain_style(),
    {
        Style {
            fg: Paint::Inherit,
            bg: Paint::Inherit,
            bold: false,
            italic: false,
            underlined: false,
            crossed_out: false,
            reversed: false,
        }
    }

    /// The style in the foreground colour `c`.
    pub fn fg(self, c: Color) -> (s: Self)
        ensures
            s == (Style { fg: Paint::Solid(c), ..self }),
    {
        Style { fg: Paint::Solid(c), ..self }
    }

    /// The style over the background colour `c`.
    pub fn bg(self, c: Color) -> (s: Self)
        ensures
            s == (Style { bg: Paint::Solid(c), ..self }),
    {
        Style { bg: Paint::Solid(c), ..self }
    }

    /// The style in bold.
    pub fn bold(self) -> (s: Self)
        ensures
            s == (Style { bold: true, ..self }),
    {
        Style { bold: true, ..self }
    }

    /// The style in italics.
    pub fn italic(self) -> (s: Self)
        ensures
            s == (Style { italic: true, ..self }),
    {
        Style { italic: true, ..self }
    }

    /// The style underlined.
    pub fn underlined(self) -> (s: Self)
        ensures
            s == (Style { underlined: true, ..self }),
    {
        Style { underlined: true, ..self }
    }

    /// The style crossed out.
    pub fn crossed_out(self) -> (s: Self)
        ensures
            s == (Style { crossed_out: true, ..self }),
    {
        Style { crossed_out: true, ..self }
    }

    /// The style with foreground and background exchanged.
    pub fn reversed(self) -> (s: Self)
        ensures
            s == (Style { reversed: true, ..self }),
    {
        Style { reversed: true, ..self }
    }
}

/// A run of text in one style.
#[derive(Debug, PartialEq, Eq)]
pub struct Span {
    pub content: String,
    pub style: Style,
}

/// What a span holds.
#[verifier::ext_equal]
pub struct SpanView {
    pub content: Seq<char>,
    pub style: Style,
}

impl View for Span {
    type V = SpanView;

    open spec fn view(&self) -> SpanView {
        SpanView { content: self.content@, style: self.style }
    }
}

impl Clone for Span {
    fn clone(&self) -> (r: Self)
        ensures
            r@ == self@,
    {
        Span { content: self.content.clone(), style: self.style }
    }
}

/// A span of `content` in `style`.
pub open spec fn span(content: Seq<char>, style: Style) -> SpanView {
    SpanView { content, style }
}

/// A span that changes no style.
pub open spec fn raw(content: Seq<char>) -> SpanView {
    SpanView { content, style: plain_style() }
}

impl Span {
    /// A span of `content` in `style`.
    pub fn styled(content: &str, style: Style) -> (s: Self)
        ensures
            s@ == span(content@, style),
    {
        Span { content: content.to_owned(), style }
    }

    /// A span of some characters in `style`.
    pub fn of(content: &[char], style: Style) -> (s: Self)
        ensures
            s@ == span(content@, style),
    {
        Span { content: text_of(content), style }
    }

    /// A span that changes no style.
    pub fn raw(content: &str) -> (s: Self)
        ensures
            s@ == raw(content@),
    {
        Span { content: content.to_owned(), style: Style::plain() }
    }
}

/// A row of spans over a style of its own.
#[derive(Debug, PartialEq, Eq)]
pub struct Line {
    pub spans: Vec<Span>,
    pub style: Style,
}

/// What a line holds.
#[verifier::ext_equal]
pub struct LineView {
    pub spans: Seq<SpanView>,
    pub style: Style,
}

/// What some spans hold.
pub open spec fn span_views(spans: Seq<Span>) -> Seq<SpanView> {
    spans.map_values(|s: Span| s@)
}

/// What some lines hold.
pub open spec fn line_views(lines: Seq<Line>) -> Seq<LineView> {
    lines.map_values(|l: Line| l@)
}

impl View for Line {
    type V = LineView;

    open spec fn view(&self) -> LineView {
        LineView { spans: span_views(self.spans@), style: self.style }
    }
}

/// Copies of some spans.
pub fn copy_spans(spans: &[Span]) -> (out: Vec<Span>)
    ensures
        span_views(out@) == span_views(spans@),
{
    let mut out: Vec<Span> = Vec::new();
    let mut i: usize = 0;
    while i < spans.len()
        invariant
            i <= spans@.len(),
            span_views(out@) =~= span_views(spans@).take(i as int),
        decreases spans@.len() - i,
    {
        let ghost before = out@;
        let item = spans[i].clone();
        out.push(item);
        i += 1;
        assert(span_views(out@) =~= span_views(before).push(spans@[i - 1]@));
        assert(span_views(spans@).take(i as int) =~= span_views(spans@).take(i - 1).push(spans@[i - 1]@));
    }
    assert(span_views(spans@).take(i as int) =~= span_views(spans@));
    out
}

/// Move some spans to the end of others.
pub fn append_spans(to: &mut Vec<Span>, from: Vec<Span>)
    ensures
        span_views(final(to)@) == span_views(old(to)@) + span_views(from@),
{
    let mut from: Vec<Span> = from;
    let ghost a = to@;
    let ghost b = from@;
    to.append(&mut from);
    assert(span_views(to@) =~= span_views(a) + span_views(b));
}

/// Copies of some lines.
pub fn copy_lines(lines: &[Line]) -> (out: Vec<Line>)
    ensures
        line_views(out@) == line_views(lines@),
{
    let mut out: Vec<Line> = Vec::new();
    let mut i: usize = 0;
    while i < lines.len()
        invariant
            i <= lines@.len(),
            line_views(out@) =~= line_views(lines@).take(i as int),
        decreases lines@.len() - i,
    {
        let ghost before = out@;
        let item = lines[i].clone();
        out.push(item);
        i += 1;
        assert(line_views(out@) =~= line_views(before).push(lines@[i - 1]@));
        assert(line_views(lines@).take(i as int) =~= line_views(lines@).take(i - 1).push(lines@[i - 1]@));
    }
    assert(line_views(lines@).take(i as int) =~= line_views(lines@));
    out
}

/// Move some lines to the end of others.
pub fn append_lines(to: &mut Vec<Line>, from: Vec<Line>)
    ensures
        line_views(final(to)@) == line_views(old(to)@) + line_views(from@),
{
    let mut from: Vec<Line> = from;
    let ghost a = to@;
    let ghost b = from@;
    to.append(&mut from);
    assert(line_views(to@) =~= line_views(a) + line_views(b));
}

impl Clone for Line {
    fn clone(&self) -> (r: Self)
        ensures
            r@ == self@,
    {
        Line { spans: copy_spans(self.spans.as_slice()), style: self.style }
    }
}

/// A line of these spans, over no style.
pub open spec fn line(spans: Seq<SpanView>) -> LineView {
    LineView { spans, style: plain_style() }
}

/// A line of one raw span over a style.
pub open spec fn styled_line(content: Seq<char>, style: Style) -> LineView {
    LineView { spans: seq![raw(content)], style }
}

/// A line without spans.
pub open spec fn blank_line() -> LineView {
    line(Seq::empty())
}

impl Line {
    /// A line of these spans, over no style.
    pub fn new(spans: Vec<Span>) -> (l: Self)
        ensures
            l@ == line(span_views(spans@)),
    {
        Line { spans, style: Style::plain() }
    }

    /// A line without spans.
    pub fn blank() -> (l: Self)
        ensures
            l@ == blank_line(),
    {
        let l = Line { spans: Vec::new(), style: Style::plain() };
        assert(l@ =~= blank_line());
        l
    }

    /// A line of one raw span over a style.
    pub fn styled(content: &str, style: Style) -> (l: Self)
        ensures
            l@ == styled_line(content@, style),
    {
        let mut spans: Vec<Span> = Vec::new();
        spans.push(Span::raw(content));
        let l = Line { spans, style };
        assert(l@ =~= styled_line(content@, style));
        l
    }

    /// A line of one raw span of some characters over a style.
    pub fn styled_chars(content: &[char], style: Style) -> (l: Self)
        ensures
            l@ == styled_line(content@, style),
    {
        let mut spans: Vec<Span> = Vec::new();
        spans.push(Span::of(content, Style::plain()));
        let l = Line { spans, style };
        assert(l@ =~= styled_line(content@, style));
        l
    }

    /// The line over a style.
    pub fn over(self, style: Style) -> (l: Self)
        ensures
            l@ == (LineView { style, ..self@ }),
    {
        Line { spans: self.spans, style }
    }
}

} // verus!
