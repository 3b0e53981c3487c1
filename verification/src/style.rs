//! Cell styles, modelled on ratatui's `Style`, `Color` and `Modifier`.

use vstd::prelude::*;

verus! {

/// A terminal color, with the variants of ratatui's `Color`.
#[derive(Clone, Copy, Debug, PartialEq, Eq, Structural)]
pub enum Color {
    Reset,
    Black,
    Red,
    Green,
    Yellow,
    Blue,
    Magenta,
    Cyan,
    Gray,
    DarkGray,
    LightRed,
    LightGreen,
    LightYellow,
    LightBlue,
    LightMagenta,
    LightCyan,
    White,
    Rgb(u8, u8, u8),
    Indexed(u8),
}

/// Text emphasis bits, as in ratatui's `Modifier`.
pub const MODIFIER_BOLD: u16 = 0x0001;

pub const MODIFIER_DIM: u16 = 0x0002;

pub const MODIFIER_ITALIC: u16 = 0x0004;

pub const MODIFIER_UNDERLINED: u16 = 0x0008;

pub const MODIFIER_SLOW_BLINK: u16 = 0x0010;

pub const MODIFIER_RAPID_BLINK: u16 = 0x0020;

pub const MODIFIER_REVERSED: u16 = 0x0040;

pub const MODIFIER_HIDDEN: u16 = 0x0080;

pub const MODIFIER_CROSSED_OUT: u16 = 0x0100;

/// The style of a cell: colors that replace the ones below when set, and
/// modifiers to add and to remove.
#[derive(Clone, Copy, Debug, PartialEq, Eq, Structural)]
pub struct Style {
    pub fg: Option<Color>,
    pub bg: Option<Color>,
    pub underline_color: Option<Color>,
    pub add_modifier: u16,
    pub sub_modifier: u16,
}

/// The style that changes nothing.
pub open spec fn style_default() -> Style {
    Style { fg: None, bg: None, underline_color: None, add_modifier: 0, sub_modifier: 0 }
}

pub open spec fn with_fg(style: Style, color: Color) -> Style {
    Style { fg: Some(color), ..style }
}

pub open spec fn with_bg(style: Style, color: Color) -> Style {
    Style { bg: Some(color), ..style }
}

/// `style` with the modifiers `m` added (and no longer removed).
pub open spec fn with_modifier(style: Style, m: u16) -> Style {
    Style { add_modifier: style.add_modifier | m, sub_modifier: style.sub_modifier & !m, ..style }
}

/// `style` with the modifiers `m` removed (and no longer added).
pub open spec fn without_modifier(style: Style, m: u16) -> Style {
    Style { add_modifier: style.add_modifier & !m, sub_modifier: style.sub_modifier | m, ..style }
}

impl Default for Style {
    fn default() -> (r: Style)
        ensures
            r == style_default(),
    {
        Style { fg: None, bg: None, underline_color: None, add_modifier: 0, sub_modifier: 0 }
    }
}

pub open spec fn with_underline_color(style: Style, color: Color) -> Style {
    Style { underline_color: Some(color), ..style }
}

impl Style {
    /// This style with underline `color`.
    pub fn underline_color(self, color: Color) -> (r: Style)
        ensures
            r == with_underline_color(self, color),
    {
        Style { underline_color: Some(color), ..self }
    }

    /// This style with foreground `color`.
    pub fn fg(self, color: Color) -> (r: Style)
        ensures
            r == with_fg(self, color),
    {
        Style { fg: Some(color), ..self }
    }

    /// This style with background `color`.
    pub fn bg(self, color: Color) -> (r: Style)
        ensures
            r == with_bg(self, color),
    {
        Style { bg: Some(color), ..self }
    }

    /// This style with the modifiers `m` added.
    pub fn add_modifier(self, m: u16) -> (r: Style)
        ensures
            r == with_modifier(self, m),
    {
        Style { add_modifier: self.add_modifier | m, sub_modifier: self.sub_modifier & !m, ..self }
    }

    /// This style with the modifiers `m` removed.
    pub fn remove_modifier(self, m: u16) -> (r: Style)
        ensures
            r == without_modifier(self, m),
    {
        Style { add_modifier: self.add_modifier & !m, sub_modifier: self.sub_modifier | m, ..self }
    }
}

} // verus!
