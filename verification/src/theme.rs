//! Brand theme and colour budget.
//!
//! One accent does the brand work. Chrome is dark grey, identifiers and code are
//! cyan, body text has the terminal's own foreground, and failures and diffs
//! stay red and green. With colour switched off only modifiers remain.
use crate::styled::{plain_style, Color, Paint, Style};
use crate::text::{chars_of, text_of, trim, trim_of};
use vstd::prelude::*;
use vstd::string::*;

verus! {

/// Brand orange.
#[verifier::when_used_as_spec(spec_accent_rgb)]
pub fn accent_rgb() -> (c: Color)
    ensures
        c == spec_accent_rgb(),
{
    Color::Rgb(255, 92, 39)
}

/// Brand orange.
pub open spec fn spec_accent_rgb() -> Color {
    Color::Rgb(255, 92, 39)
}

/// Dimmer brand orange.
#[verifier::when_used_as_spec(spec_accent_dim_rgb)]
pub fn accent_dim_rgb() -> (c: Color)
    ensures
        c == spec_accent_dim_rgb(),
{
    Color::Rgb(184, 74, 30)
}

/// Dimmer brand orange.
pub open spec fn spec_accent_dim_rgb() -> Color {
    Color::Rgb(184, 74, 30)
}

/// Background of an inserted row.
#[verifier::when_used_as_spec(spec_diff_added_bg)]
pub fn diff_added_bg() -> (c: Color)
    ensures
        c == spec_diff_added_bg(),
{
    Color::Rgb(28, 57, 39)
}

/// Background of an inserted row.
pub open spec fn spec_diff_added_bg() -> Color {
    Color::Rgb(28, 57, 39)
}

/// Background of a removed row.
#[verifier::when_used_as_spec(spec_diff_removed_bg)]
pub fn diff_removed_bg() -> (c: Color)
    ensures
        c == spec_diff_removed_bg(),
{
    Color::Rgb(67, 30, 32)
}

/// Background of a removed row.
pub open spec fn spec_diff_removed_bg() -> Color {
    Color::Rgb(67, 30, 32)
}

/// The one-cell mark of the brand.
pub const DEFAULT_LOGO: &'static str = "\u{273b}";

/// The colour of a loading phase: from the brand orange through amber and back.
pub open spec fn loading_phase(phase: int) -> Color {
    let i = phase % 8;
    if i == 0 {
        Color::Rgb(255, 92, 39)
    } else if i == 1 {
        Color::Rgb(255, 119, 42)
    } else if i == 2 {
        Color::Rgb(255, 151, 49)
    } else if i == 3 {
        Color::Rgb(255, 190, 69)
    } else if i == 4 {
        Color::Rgb(255, 215, 112)
    } else if i == 5 {
        Color::Rgb(255, 165, 55)
    } else if i == 6 {
        Color::Rgb(255, 112, 39)
    } else {
        Color::Rgb(184, 74, 30)
    }
}

/// The colour of a loading phase.
pub fn loading_color(phase: usize) -> (c: Color)
    ensures
        c == loading_phase(phase as int),
{
    let i: usize = phase % 8;
    if i == 0 {
        Color::Rgb(255, 92, 39)
    } else if i == 1 {
        Color::Rgb(255, 119, 42)
    } else if i == 2 {
        Color::Rgb(255, 151, 49)
    } else if i == 3 {
        Color::Rgb(255, 190, 69)
    } else if i == 4 {
        Color::Rgb(255, 215, 112)
    } else if i == 5 {
        Color::Rgb(255, 165, 55)
    } else if i == 6 {
        Color::Rgb(255, 112, 39)
    } else {
        Color::Rgb(184, 74, 30)
    }
}

/// The colour budget: colours, or modifiers alone.
#[derive(Debug, Clone, Copy, PartialEq, Eq, Structural)]
pub struct Palette {
    pub no_color: bool,
}

/// The budget that the value of `NO_COLOR` asks for: present and not empty
/// switches colour off.
pub open spec fn palette_for(no_color: Option<Seq<char>>) -> Palette {
    Palette { no_color: no_color is Some && no_color->0.len() > 0 }
}

/// The budget that the value of `NO_COLOR` asks for.
pub fn palette(no_color: Option<&str>) -> (p: Palette)
    ensures
        no_color matches Some(v) ==> p == palette_for(Some(v@)),
        no_color is None ==> p == palette_for(None),
{
    match no_color {
        Some(v) => Palette { no_color: !v.is_empty() },
        None => Palette { no_color: false },
    }
}

/// Whether motion is allowed, by the value of `SC_NO_ANIM`: present and not
/// empty switches it off.
pub fn animations_enabled(no_anim: Option<&str>) -> (on: bool)
    ensures
        on <==> (no_anim is None || (no_anim->0)@.len() == 0),
{
    match no_anim {
        Some(v) => v.is_empty(),
        None => true,
    }
}

impl Palette {
    /// The style in foreground colour `c`, if there is colour.
    pub open spec fn painted(self, c: Color) -> Style {
        if self.no_color {
            plain_style()
        } else {
            Style { fg: Paint::Solid(c), ..plain_style() }
        }
    }

    fn paint(&self, c: Color) -> (s: Style)
        ensures
            s == self.painted(c),
    {
        if self.no_color {
            Style::plain()
        } else {
            Style::plain().fg(c)
        }
    }

    /// The one accent.
    #[verifier::when_used_as_spec(spec_accent)]
    pub fn accent(&self) -> (s: Style)
        ensures
            s == self.spec_accent(),
    {
        self.paint(accent_rgb())
    }

    pub open spec fn spec_accent(&self) -> Style {
        self.painted(accent_rgb())
    }

    /// The accent, dimmed.
    #[verifier::when_used_as_spec(spec_accent_dim)]
    pub fn accent_dim(&self) -> (s: Style)
        ensures
            s == self.spec_accent_dim(),
    {
        self.paint(accent_dim_rgb())
    }

    pub open spec fn spec_accent_dim(&self) -> Style {
        self.painted(accent_dim_rgb())
    }

    /// One phase of the loading colours.
    pub fn loading(&self, phase: usize) -> (s: Style)
        ensures
            s == self.painted(loading_phase(phase as int)),
    {
        self.paint(loading_color(phase))
    }

    /// Bullets, rules, gutters, labels and hints.
    #[verifier::when_used_as_spec(spec_chrome)]
    pub fn chrome(&self) -> (s: Style)
        ensures
            s == self.spec_chrome(),
    {
        self.paint(Color::DarkGray)
    }

    pub open spec fn spec_chrome(&self) -> Style {
        self.painted(Color::DarkGray)
    }

    /// Identifiers and code.
    #[verifier::when_used_as_spec(spec_code)]
    pub fn code(&self) -> (s: Style)
        ensures
            s == self.spec_code(),
    {
        self.paint(Color::Cyan)
    }

    pub open spec fn spec_code(&self) -> Style {
        self.painted(Color::Cyan)
    }

    /// Body text: the terminal's own foreground.
    #[verifier::when_used_as_spec(spec_body)]
    pub fn body(&self) -> (s: Style)
        ensures
            s == self.spec_body(),
    {
        Style::plain()
    }

    pub open spec fn spec_body(&self) -> Style {
        plain_style()
    }

    /// A submitted prompt: white on grey, or reversed without colour.
    #[verifier::when_used_as_spec(spec_user_prompt)]
    pub fn user_prompt(&self) -> (s: Style)
        ensures
            s == self.spec_user_prompt(),
    {
        if self.no_color {
            Style::plain().reversed()
        } else {
            Style::plain().fg(Color::White).bg(Color::DarkGray)
        }
    }

    pub open spec fn spec_user_prompt(&self) -> Style {
        if self.no_color {
            Style { reversed: true, ..plain_style() }
        } else {
            Style { fg: Paint::Solid(Color::White), bg: Paint::Solid(Color::DarkGray), ..plain_style() }
        }
    }

    /// A link: cyan and underlined, or underlined alone.
    #[verifier::when_used_as_spec(spec_link)]
    pub fn link(&self) -> (s: Style)
        ensures
            s == self.spec_link(),
    {
        self.paint(Color::Cyan).underlined()
    }

    pub open spec fn spec_link(&self) -> Style {
        Style { underlined: true, ..self.painted(Color::Cyan) }
    }

    /// Reasoning: grey and italic, or italic alone.
    #[verifier::when_used_as_spec(spec_reasoning)]
    pub fn reasoning(&self) -> (s: Style)
        ensures
            s == self.spec_reasoning(),
    {
        self.paint(Color::DarkGray).italic()
    }

    pub open spec fn spec_reasoning(&self) -> Style {
        Style { italic: true, ..self.painted(Color::DarkGray) }
    }

    /// A state colour, dropped where there is no colour.
    pub fn semantic(&self, c: Color) -> (s: Style)
        ensures
            s == self.painted(c),
    {
        self.paint(c)
    }

    /// A changed row of a file: a red or green tint, or reversed without colour.
    pub open spec fn highlighted(self, c: Color) -> Style {
        if self.no_color {
            Style { reversed: true, ..plain_style() }
        } else {
            Style {
                bg: Paint::Solid(
                    match c {
                        Color::Green => diff_added_bg(),
                        Color::Red => diff_removed_bg(),
                        other => other,
                    },
                ),
                ..plain_style()
            }
        }
    }

    /// A changed row of a file.
    pub fn diff_highlight(&self, c: Color) -> (s: Style)
        ensures
            s == self.highlighted(c),
    {
        if self.no_color {
            Style::plain().reversed()
        } else {
            let background = match c {
                Color::Green => diff_added_bg(),
                Color::Red => diff_removed_bg(),
                other => other,
            };
            Style::plain().bg(background)
        }
    }

    /// The selected row of a menu: black on the brand colour, or reversed.
    #[verifier::when_used_as_spec(spec_menu_selected)]
    pub fn menu_selected(&self) -> (s: Style)
        ensures
            s == self.spec_menu_selected(),
    {
        if self.no_color {
            Style::plain().reversed()
        } else {
            Style::plain().fg(Color::Black).bg(accent_rgb())
        }
    }

    pub open spec fn spec_menu_selected(&self) -> Style {
        if self.no_color {
            Style { reversed: true, ..plain_style() }
        } else {
            Style { fg: Paint::Solid(Color::Black), bg: Paint::Solid(accent_rgb()), ..plain_style() }
        }
    }
}

/// The first piece with something in it, trimmed and cut to eight characters.
pub open spec fn first_mark(lines: Seq<Seq<char>>) -> Option<Seq<char>>
    decreases lines.len(),
{
    if lines.len() == 0 {
        None
    } else {
        let t = trim(lines[0]);
        if t.len() > 0 {
            Some(t.take(if t.len() < 8 { t.len() as int } else { 8 }))
        } else {
            first_mark(lines.skip(1))
        }
    }
}

/// The header mark: the first line with something in it of the user's own logo
/// file, trimmed and cut to eight characters, or the default mark.
pub fn logo_glyph(custom: Option<&str>) -> (g: String)
    ensures
        custom is None ==> g@ == DEFAULT_LOGO@,
        custom matches Some(body) ==> g@ == (match first_mark(crate::text::split(body@, '\n')) {
            Some(mark) => mark,
            None => DEFAULT_LOGO@,
        }),
{
    if let Some(body) = custom {
        let chars: Vec<char> = chars_of(body);
        let lines: Vec<Vec<char>> = crate::text::split_of(chars.as_slice(), '\n');
        let ghost all = crate::text::texts(lines@);
        let mut i: usize = 0;
        assert(all.skip(0) =~= all);
        while i < lines.len()
            invariant
                i <= lines@.len(),
                custom == Some(body),
                all == crate::text::split(body@, '\n'),
                all == crate::text::texts(lines@),
                first_mark(all) == first_mark(all.skip(i as int)),
            decreases lines@.len() - i,
        {
            let t: Vec<char> = trim_of(lines[i].as_slice());
            assert(all.skip(i as int)[0] == lines@[i as int]@);
            assert(all.skip(i as int).skip(1) =~= all.skip(i + 1));
            if t.len() > 0 {
                let n: usize = if t.len() < 8 {
                    t.len()
                } else {
                    8
                };
                assert(t@.subrange(0, n as int) =~= t@.take(n as int));
                let cut: Vec<char> = crate::text::slice_of(t.as_slice(), 0, n);
                return text_of(cut.as_slice());
            }
            i += 1;
        }
    }
    DEFAULT_LOGO.to_owned()
}

} // verus!
