//! Terminal styles: the resolved attribute set that a terminal is given, and
//! the configured style that may borrow colours from the segment before it.

use vstd::prelude::*;

verus! {

/// A terminal colour of `nu_ansi_term`. A style carries it from one place to
/// another and never looks inside it.
#[verifier::external_type_specification]
#[verifier::external_body]
pub struct ExColor(nu_ansi_term::Color);

/// A resolved style: what `nu_ansi_term::Style` holds, field for field.
#[derive(Clone, Copy, Debug, PartialEq, Eq)]
pub struct AnsiStyle {
    pub foreground: Option<nu_ansi_term::Color>,
    pub background: Option<nu_ansi_term::Color>,
    pub is_bold: bool,
    pub is_dimmed: bool,
    pub is_italic: bool,
    pub is_underline: bool,
    pub is_blink: bool,
    pub is_reverse: bool,
    pub is_hidden: bool,
    pub is_strikethrough: bool,
    pub prefix_with_reset: bool,
}

impl AnsiStyle {
    /// The style with no colour and no attribute set.
    pub open spec fn plain() -> AnsiStyle {
        AnsiStyle {
            foreground: None,
            background: None,
            is_bold: false,
            is_dimmed: false,
            is_italic: false,
            is_underline: false,
            is_blink: false,
            is_reverse: false,
            is_hidden: false,
            is_strikethrough: false,
            prefix_with_reset: false,
        }
    }

    /// A style with no colour and no attribute set.
    pub fn new() -> (r: AnsiStyle)
        ensures
            r == AnsiStyle::plain(),
    {
        AnsiStyle {
            foreground: None,
            background: None,
            is_bold: false,
            is_dimmed: false,
            is_italic: false,
            is_underline: false,
            is_blink: false,
            is_reverse: false,
            is_hidden: false,
            is_strikethrough: false,
            prefix_with_reset: false,
        }
    }
}

impl Default for AnsiStyle {
    fn default() -> (r: AnsiStyle)
        ensures
            r == AnsiStyle::plain(),
    {
        AnsiStyle::new()
    }
}

/// Which colour of the previous segment a style borrows.
#[derive(Clone, Copy, Debug, PartialEq, Eq)]
pub enum PrevColor {
    /// The previous segment's foreground.
    Fg,
    /// The previous segment's background.
    Bg,
}

/// A configured style: a base attribute set, and for each of its two colours
/// an optional instruction to take it from the previous segment instead.
#[derive(Clone, Copy, Debug, PartialEq, Eq)]
pub struct Style {
    pub style: AnsiStyle,
    pub bg: Option<PrevColor>,
    pub fg: Option<PrevColor>,
}

/// The previous style as a value.
pub open spec fn deref_style(prev: Option<&AnsiStyle>) -> Option<AnsiStyle> {
    match prev {
        Some(p) => Some(*p),
        None => None,
    }
}

/// The colour of `prev` that `which` points at.
pub open spec fn borrowed(which: PrevColor, prev: AnsiStyle) -> Option<nu_ansi_term::Color> {
    match which {
        PrevColor::Fg => prev.foreground,
        PrevColor::Bg => prev.background,
    }
}

impl Style {
    /// What this style resolves to after a segment resolved to `prev`: the
    /// base style, with each borrowed colour replaced by the previous
    /// segment's. With no previous segment nothing is borrowed.
    pub open spec fn resolve(self, prev: Option<AnsiStyle>) -> AnsiStyle {
        match prev {
            None => self.style,
            Some(p) => AnsiStyle {
                foreground: match self.fg {
                    Some(which) => borrowed(which, p),
                    None => self.style.foreground,
                },
                background: match self.bg {
                    Some(which) => borrowed(which, p),
                    None => self.style.background,
                },
                ..self.style
            },
        }
    }

    /// A style that borrows nothing: it resolves to `style` after any segment.
    pub fn fixed(style: AnsiStyle) -> (r: Style)
        ensures
            r == (Style { style, bg: None, fg: None }),
            forall|prev: Option<AnsiStyle>| #[trigger] r.resolve(prev) == style,
    {
        Style { style, bg: None, fg: None }
    }

    /// Resolves this style against the previous segment's resolved style.
    pub fn to_ansi_style(&self, prev: Option<&AnsiStyle>) -> (r: AnsiStyle)
        ensures
            r == self.resolve(deref_style(prev)),
    {
        let mut current = self.style;
        if let Some(p) = prev {
            match self.bg {
                Some(PrevColor::Fg) => {
                    current.background = p.foreground;
                },
                Some(PrevColor::Bg) => {
                    current.background = p.background;
                },
                None => {},
            }
            match self.fg {
                Some(PrevColor::Fg) => {
                    current.foreground = p.foreground;
                },
                Some(PrevColor::Bg) => {
                    current.foreground = p.background;
                },
                None => {},
            }
        }
        current
    }
}

/// Text together with the resolved style it is to be shown in.
#[derive(Clone, Debug, PartialEq, Eq)]
pub struct AnsiString {
    pub style: AnsiStyle,
    pub string: String,
}

/// The resolved style of a segment whose own style is `style`: the style
/// resolved against `prev`, or the plain style where the segment has none.
pub open spec fn painted_style(style: Option<Style>, prev: Option<AnsiStyle>) -> AnsiStyle {
    match style {
        Some(s) => s.resolve(prev),
        None => AnsiStyle::plain(),
    }
}

/// Pairs `text` with the segment's style resolved against `prev`; text of a
/// segment without a style stays plain.
pub fn paint(style: Option<Style>, prev: Option<&AnsiStyle>, text: String) -> (r: AnsiString)
    ensures
        r.style == painted_style(style, deref_style(prev)),
        r.string@ == text@,
{
    match style {
        Some(s) => AnsiString { style: s.to_ansi_style(prev), string: text },
        None => AnsiString { style: AnsiStyle::new(), string: text },
    }
}

} // verus!
