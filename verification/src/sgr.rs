//! SGR ("select graphic rendition") escape parameters: how `ESC [ ... m`
//! changes the style of the text that follows.

use vstd::prelude::*;
use crate::style::{
    Color, Style, MODIFIER_BOLD, MODIFIER_DIM, MODIFIER_ITALIC, MODIFIER_REVERSED,
    MODIFIER_UNDERLINED, with_bg, with_fg, with_modifier, without_modifier,
};

verus! {

pub open spec fn is_ascii_digit(c: char) -> bool {
    0x30 <= (c as u32) && (c as u32) <= 0x39
}

/// The decimal number written by the digits `s`.
pub open spec fn decimal_value(s: Seq<char>) -> nat
    decreases s.len(),
{
    if s.len() == 0 {
        0
    } else {
        decimal_value(s.drop_last()) * 10 + ((s.last() as u32) - 0x30) as nat
    }
}

/// `s` without one leading `+`.
pub open spec fn unsigned_digits(s: Seq<char>) -> Seq<char> {
    if s.len() > 0 && s[0] == '+' {
        s.drop_first()
    } else {
        s
    }
}

pub open spec fn all_ascii_digits(s: Seq<char>) -> bool {
    forall|k: int| 0 <= k < s.len() ==> is_ascii_digit(#[trigger] s[k])
}

/// What `u8::from_str` gives for the text `s`: an optional `+`, then one or
/// more ASCII digits whose value is at most 255; anything else is an error.
pub open spec fn parse_u8_spec(s: Seq<char>) -> Option<u8> {
    let digits = unsigned_digits(s);
    if digits.len() > 0 && all_ascii_digits(digits) && decimal_value(digits) <= 255 {
        Some(decimal_value(digits) as u8)
    } else {
        None
    }
}

/// A parameter's number; one that does not parse counts as 0.
pub open spec fn sgr_number(part: Seq<char>) -> u8 {
    match parse_u8_spec(part) {
        Some(v) => v,
        None => 0,
    }
}

/// Index of the first `;` in `s`, or `s.len()` when there is none.
pub open spec fn first_semi(s: Seq<char>) -> nat
    decreases s.len(),
{
    if s.len() == 0 || s[0] == ';' {
        0
    } else {
        1 + first_semi(s.drop_first())
    }
}

/// The parts of `s` between `;` separators, as `str::split(';')` gives them.
pub open spec fn split_semis(s: Seq<char>) -> Seq<Seq<char>>
    decreases s.len(),
{
    let k = first_semi(s);
    if k >= s.len() {
        seq![s]
    } else {
        proof {
            lemma_first_semi_bound(s);
        }
        seq![s.take(k as int)] + split_semis(s.skip(k as int + 1))
    }
}

/// The first `;` of `s` is where `first_semi` says it is.
pub proof fn lemma_first_semi_bound(s: Seq<char>)
    ensures
        first_semi(s) <= s.len(),
        first_semi(s) < s.len() ==> s[first_semi(s) as int] == ';',
        forall|j: int| 0 <= j < first_semi(s) ==> s[j] != ';',
    decreases s.len(),
{
    if s.len() > 0 && s[0] != ';' {
        lemma_first_semi_bound(s.drop_first());
        assert forall|j: int| 0 <= j < first_semi(s) implies s[j] != ';' by {
            if j > 0 {
                assert(s[j] == s.drop_first()[j - 1]);
            }
        }
    }
}

proof fn lemma_first_semi_at(s: Seq<char>, k: int)
    requires
        0 <= k <= s.len(),
        forall|j: int| 0 <= j < k ==> s[j] != ';',
        k == s.len() || s[k] == ';',
    ensures
        first_semi(s) == k,
    decreases k,
{
    if k > 0 {
        let t = s.drop_first();
        assert forall|j: int| 0 <= j < k - 1 implies t[j] != ';' by {
            assert(t[j] == s[j + 1]);
        }
        if k < s.len() {
            assert(t[k - 1] == s[k]);
        }
        lemma_first_semi_at(t, k - 1);
    }
}

/// The number of each parameter.
pub open spec fn sgr_numbers(parts: Seq<Seq<char>>) -> Seq<u8> {
    parts.map_values(|p: Seq<char>| sgr_number(p))
}

proof fn lemma_sgr_numbers_cons(a: Seq<char>, rest: Seq<Seq<char>>)
    ensures
        sgr_numbers(seq![a] + rest) == seq![sgr_number(a)] + sgr_numbers(rest),
        sgr_numbers(seq![a]) == seq![sgr_number(a)],
{
    assert(sgr_numbers(seq![a] + rest) =~= seq![sgr_number(a)] + sgr_numbers(rest));
    assert(sgr_numbers(seq![a]) =~= seq![sgr_number(a)]);
}

/// The numbers of an SGR parameter string such as `38;5;81`.
pub open spec fn sgr_values(params: Seq<char>) -> Seq<u8> {
    let values = sgr_numbers(split_semis(params));
    if values.len() == 0 {
        seq![0u8]
    } else {
        values
    }
}

/// The 16 basic terminal colors: `index` 0 to 7, plain or bright.
pub open spec fn basic_color_spec(index: u8, bright: bool) -> Color {
    if !bright {
        if index == 0 {
            Color::Black
        } else if index == 1 {
            Color::Red
        } else if index == 2 {
            Color::Green
        } else if index == 3 {
            Color::Yellow
        } else if index == 4 {
            Color::Blue
        } else if index == 5 {
            Color::Magenta
        } else if index == 6 {
            Color::Cyan
        } else if index == 7 {
            Color::Gray
        } else {
            Color::White
        }
    } else {
        if index == 0 {
            Color::DarkGray
        } else if index == 1 {
            Color::LightRed
        } else if index == 2 {
            Color::LightGreen
        } else if index == 3 {
            Color::LightYellow
        } else if index == 4 {
            Color::LightBlue
        } else if index == 5 {
            Color::LightMagenta
        } else if index == 6 {
            Color::LightCyan
        } else {
            Color::White
        }
    }
}

/// The color that the extended form `38;5;n` / `38;2;r;g;b` (or `48;...`)
/// starting at `index` names, with the index of its last number.
pub open spec fn extended_spec(values: Seq<u8>, index: int) -> Option<(Color, int)> {
    if index + 1 >= values.len() {
        None
    } else if values[index + 1] == 5 {
        if index + 2 < values.len() {
            Some((Color::Indexed(values[index + 2]), index + 2))
        } else {
            None
        }
    } else if values[index + 1] == 2 {
        if index + 4 < values.len() {
            Some((Color::Rgb(values[index + 2], values[index + 3], values[index + 4]), index + 4))
        } else {
            None
        }
    } else {
        None
    }
}

/// The effect of one SGR number other than 38 and 48.
pub open spec fn sgr_simple(style: Style, default: Style, v: u8) -> Style {
    if v == 0 {
        default
    } else if v == 1 {
        with_modifier(style, MODIFIER_BOLD)
    } else if v == 2 {
        with_modifier(style, MODIFIER_DIM)
    } else if v == 3 {
        with_modifier(style, MODIFIER_ITALIC)
    } else if v == 4 {
        with_modifier(style, MODIFIER_UNDERLINED)
    } else if v == 7 {
        with_modifier(style, MODIFIER_REVERSED)
    } else if v == 22 {
        without_modifier(style, MODIFIER_BOLD | MODIFIER_DIM)
    } else if v == 23 {
        without_modifier(style, MODIFIER_ITALIC)
    } else if v == 24 {
        without_modifier(style, MODIFIER_UNDERLINED)
    } else if v == 27 {
        without_modifier(style, MODIFIER_REVERSED)
    } else if v == 39 {
        with_fg(
            style,
            match default.fg {
                Some(c) => c,
                None => Color::Reset,
            },
        )
    } else if v == 49 {
        with_bg(
            style,
            match default.bg {
                Some(c) => c,
                None => Color::Reset,
            },
        )
    } else if 30 <= v <= 37 {
        with_fg(style, basic_color_spec((v - 30) as u8, false))
    } else if 90 <= v <= 97 {
        with_fg(style, basic_color_spec((v - 90) as u8, true))
    } else if 40 <= v <= 47 {
        with_bg(style, basic_color_spec((v - 40) as u8, false))
    } else if 100 <= v <= 107 {
        with_bg(style, basic_color_spec((v - 100) as u8, true))
    } else {
        style
    }
}

/// `style` after the SGR numbers `values[index..]`, left to right.
pub open spec fn sgr_run(values: Seq<u8>, index: int, style: Style, default: Style) -> Style
    decreases values.len() - index,
{
    if index < 0 || index >= values.len() {
        style
    } else {
        let v = values[index];
        if v == 38 || v == 48 {
            match extended_spec(values, index) {
                Some((color, last)) => sgr_run(
                    values,
                    last + 1,
                    if v == 38 {
                        with_fg(style, color)
                    } else {
                        with_bg(style, color)
                    },
                    default,
                ),
                None => sgr_run(values, index + 1, style, default),
            }
        } else {
            sgr_run(values, index + 1, sgr_simple(style, default, v), default)
        }
    }
}

/// `style` after the SGR escape with parameters `params`; number 0 goes back
/// to `default`.
pub open spec fn apply_sgr_spec(style: Style, default: Style, params: Seq<char>) -> Style {
    sgr_run(sgr_values(params), 0, style, default)
}

proof fn lemma_decimal_value_grows(s: Seq<char>, k: int)
    requires
        0 <= k <= s.len(),
        forall|j: int| 0 <= j < s.len() ==> is_ascii_digit(#[trigger] s[j]),
    ensures
        decimal_value(s) >= decimal_value(s.take(k)),
    decreases s.len() - k,
{
    if k < s.len() {
        lemma_decimal_value_grows(s, k + 1);
        assert(s.take(k + 1).drop_last() =~= s.take(k));
        assert(s.take(k + 1).last() == s[k]);
        assert(is_ascii_digit(s[k]));
    } else {
        assert(s.take(k) =~= s);
    }
}

/// `u8::from_str` on the characters `chars[start..end]`.
pub fn parse_u8(chars: &[char], start: usize, end: usize) -> (r: Option<u8>)
    requires
        start <= end <= chars@.len(),
    ensures
        r == parse_u8_spec(chars@.subrange(start as int, end as int)),
{
    let ghost s = chars@.subrange(start as int, end as int);
    let mut i = start;
    if i < end && chars[i] == '+' {
        i = i + 1;
    }
    let ghost digits = chars@.subrange(i as int, end as int);
    assert(digits =~= unsigned_digits(s));
    if i == end {
        return None;
    }
    let d0 = i;
    let mut acc: u32 = 0;
    while i < end
        invariant
            start <= d0 <= i <= end <= chars@.len(),
            digits == chars@.subrange(d0 as int, end as int),
            d0 < end,
            s == chars@.subrange(start as int, end as int),
            digits == unsigned_digits(s),
            acc <= 255,
            acc == decimal_value(digits.take(i - d0)),
            forall|k: int| 0 <= k < i - d0 ==> is_ascii_digit(#[trigger] digits[k]),
        decreases end - i,
    {
        let c = chars[i];
        assert(digits[i - d0] == c);
        let code = c as u32;
        if code < 0x30 || code > 0x39 {
            assert(!is_ascii_digit(digits[i - d0]));
            assert(!all_ascii_digits(digits));
            return None;
        }
        assert(digits.take(i - d0 + 1).drop_last() =~= digits.take(i - d0));
        assert(digits.take(i - d0 + 1).last() == c);
        acc = acc * 10 + (code - 0x30);
        assert(acc == decimal_value(digits.take(i - d0 + 1)));
        if acc > 255 {
            proof {
                if all_ascii_digits(digits) {
                    lemma_decimal_value_grows(digits, i - d0 + 1);
                }
            }
            return None;
        }
        i = i + 1;
    }
    assert(digits.take(end - d0) =~= digits);
    Some(acc as u8)
}

/// The numbers of the SGR parameters `chars` (the text between `ESC [` and
/// the final `m`).
pub fn sgr_values_of(chars: &[char]) -> (r: Vec<u8>)
    ensures
        r@ == sgr_values(chars@),
{
    let n = chars.len();
    let mut values: Vec<u8> = Vec::new();
    let mut start: usize = 0;
    let mut i: usize = 0;
    assert(chars@.subrange(0, n as int) =~= chars@);
    while i < n
        invariant
            n == chars@.len(),
            start <= i <= n,
            forall|k: int| start <= k < i ==> chars@[k] != ';',
            values@ + sgr_numbers(split_semis(chars@.subrange(start as int, n as int))) == sgr_numbers(
                split_semis(chars@),
            ),
        decreases n - i,
    {
        if chars[i] == ';' {
            let ghost t = chars@.subrange(start as int, n as int);
            let ghost rest = sgr_numbers(split_semis(t.skip(i - start + 1)));
            proof {
                assert forall|j: int| 0 <= j < i - start implies t[j] != ';' by {
                    assert(t[j] == chars@[start + j]);
                }
                assert(t[i - start] == chars@[i as int]);
                lemma_first_semi_at(t, i - start);
                assert(t.take(i - start) =~= chars@.subrange(start as int, i as int));
                assert(t.skip(i - start + 1) =~= chars@.subrange(i + 1, n as int));
                assert(split_semis(t) == seq![t.take(i - start)] + split_semis(t.skip(i - start + 1)));
                lemma_sgr_numbers_cons(t.take(i - start), split_semis(t.skip(i - start + 1)));
            }
            let v = match parse_u8(chars, start, i) {
                Some(v) => v,
                None => 0,
            };
            let ghost before = values@;
            values.push(v);
            proof {
                assert(v == sgr_number(t.take(i - start)));
                assert(values@ + rest =~= before + (seq![v] + rest));
            }
            start = i + 1;
        }
        i = i + 1;
    }
    let ghost t = chars@.subrange(start as int, n as int);
    proof {
        assert forall|j: int| 0 <= j < n - start implies t[j] != ';' by {
            assert(t[j] == chars@[start + j]);
        }
        lemma_first_semi_at(t, n - start);
        assert(split_semis(t) == seq![t]);
        lemma_sgr_numbers_cons(t, seq![]);
    }
    let v = match parse_u8(chars, start, n) {
        Some(v) => v,
        None => 0,
    };
    values.push(v);
    if values.len() == 0 {
        values.push(0);
    }
    values
}

/// One of the 16 basic colors: `index` 0 to 7, plain or bright.
pub fn basic_color(index: u8, bright: bool) -> (r: Color)
    ensures
        r == basic_color_spec(index, bright),
{
    match (index, bright) {
        (0, false) => Color::Black,
        (1, false) => Color::Red,
        (2, false) => Color::Green,
        (3, false) => Color::Yellow,
        (4, false) => Color::Blue,
        (5, false) => Color::Magenta,
        (6, false) => Color::Cyan,
        (7, false) => Color::Gray,
        (0, true) => Color::DarkGray,
        (1, true) => Color::LightRed,
        (2, true) => Color::LightGreen,
        (3, true) => Color::LightYellow,
        (4, true) => Color::LightBlue,
        (5, true) => Color::LightMagenta,
        (6, true) => Color::LightCyan,
        _ => Color::White,
    }
}

/// The color of an extended color form (`5;n` or `2;r;g;b`) that follows
/// the 38 or 48 at `*index`; on success `*index` moves to its last number.
pub fn extended_color(values: &[u8], index: &mut usize) -> (r: Option<Color>)
    requires
        // `*index + 1` must not overflow
        *old(index) < usize::MAX,
    ensures
        match extended_spec(values@, *old(index) as int) {
            Some((color, last)) => r == Some(color) && *final(index) == last,
            None => r is None && *final(index) == *old(index),
        },
{
    let i = *index;
    if i + 1 >= values.len() {
        return None;
    }
    let kind = values[i + 1];
    if kind == 5 {
        if i + 2 >= values.len() {
            return None;
        }
        let color = values[i + 2];
        *index = i + 2;
        Some(Color::Indexed(color))
    } else if kind == 2 {
        if i + 2 >= values.len() {
            return None;
        }
        let r = values[i + 2];
        if i + 3 >= values.len() {
            return None;
        }
        let g = values[i + 3];
        if i + 4 >= values.len() {
            return None;
        }
        let b = values[i + 4];
        *index = i + 4;
        Some(Color::Rgb(r, g, b))
    } else {
        None
    }
}

/// `style` after the SGR escape whose parameters are `params` (the text
/// between `ESC [` and the final `m`); 0 goes back to `default`.
pub fn apply_sgr(style: Style, default: Style, params: &[char]) -> (r: Style)
    ensures
        r == apply_sgr_spec(style, default, params@),
{
    let mut style = style;
    let values = sgr_values_of(params);
    let ghost start_style = style;
    let mut index: usize = 0;
    while index < values.len()
        invariant
            values@ == sgr_values(params@),
            index <= values@.len(),
            sgr_run(values@, 0, start_style, default) == sgr_run(values@, index as int, style, default),
        decreases values@.len() - index,
    {
        let v = values[index];
        if v == 38 || v == 48 {
            let is_fg = v == 38;
            let ghost at = index;
            match extended_color(values.as_slice(), &mut index) {
                Some(color) => {
                    style = if is_fg {
                        style.fg(color)
                    } else {
                        style.bg(color)
                    };
                },
                None => {},
            }
            proof {
                assert(index >= at);
            }
        } else {
            style = match v {
                0 => default,
                1 => style.add_modifier(MODIFIER_BOLD),
                2 => style.add_modifier(MODIFIER_DIM),
                3 => style.add_modifier(MODIFIER_ITALIC),
                4 => style.add_modifier(MODIFIER_UNDERLINED),
                7 => style.add_modifier(MODIFIER_REVERSED),
                22 => style.remove_modifier(MODIFIER_BOLD | MODIFIER_DIM),
                23 => style.remove_modifier(MODIFIER_ITALIC),
                24 => style.remove_modifier(MODIFIER_UNDERLINED),
                27 => style.remove_modifier(MODIFIER_REVERSED),
                39 => style.fg(
                    match default.fg {
                        Some(c) => c,
                        None => Color::Reset,
                    },
                ),
                49 => style.bg(
                    match default.bg {
                        Some(c) => c,
                        None => Color::Reset,
                    },
                ),
                30..=37 => style.fg(basic_color(v - 30, false)),
                90..=97 => style.fg(basic_color(v - 90, true)),
                40..=47 => style.bg(basic_color(v - 40, false)),
                100..=107 => style.bg(basic_color(v - 100, true)),
                _ => style,
            };
        }
        index = index + 1;
    }
    style
}

/// What one SGR number does, code by code: 0 resets to `default`; 1, 2, 3,
/// 4 and 7 add bold, dim, italic, underlined and reversed; 22 removes bold
/// and dim, 23 italic, 24 underlined, 27 reversed; 39 and 49 restore the
/// default foreground and background (or reset them); 30-37 and 90-97 set
/// the foreground to a plain or bright basic color, 40-47 and 100-107 the
/// background; every other number changes nothing. (Modifier bits as in
/// ratatui: bold 0x01, dim 0x02, italic 0x04, underlined 0x08, reversed
/// 0x40.)
pub proof fn lemma_sgr_code_table(style: Style, default: Style, v: u8)
    ensures
        ({
            let r = sgr_run(seq![v], 0, style, default);
            &&& v == 0 ==> r == default
            &&& v == 1 ==> r == Style { add_modifier: style.add_modifier | 0x0001u16, sub_modifier: style.sub_modifier & !0x0001u16, ..style }
            &&& v == 2 ==> r == Style { add_modifier: style.add_modifier | 0x0002u16, sub_modifier: style.sub_modifier & !0x0002u16, ..style }
            &&& v == 3 ==> r == Style { add_modifier: style.add_modifier | 0x0004u16, sub_modifier: style.sub_modifier & !0x0004u16, ..style }
            &&& v == 4 ==> r == Style { add_modifier: style.add_modifier | 0x0008u16, sub_modifier: style.sub_modifier & !0x0008u16, ..style }
            &&& v == 7 ==> r == Style { add_modifier: style.add_modifier | 0x0040u16, sub_modifier: style.sub_modifier & !0x0040u16, ..style }
            &&& v == 22 ==> r == Style { add_modifier: style.add_modifier & !0x0003u16, sub_modifier: style.sub_modifier | 0x0003u16, ..style }
            &&& v == 23 ==> r == Style { add_modifier: style.add_modifier & !0x0004u16, sub_modifier: style.sub_modifier | 0x0004u16, ..style }
            &&& v == 24 ==> r == Style { add_modifier: style.add_modifier & !0x0008u16, sub_modifier: style.sub_modifier | 0x0008u16, ..style }
            &&& v == 27 ==> r == Style { add_modifier: style.add_modifier & !0x0040u16, sub_modifier: style.sub_modifier | 0x0040u16, ..style }
            &&& v == 39 ==> r == Style { fg: Some(match default.fg { Some(c) => c, None => Color::Reset }), ..style }
            &&& v == 49 ==> r == Style { bg: Some(match default.bg { Some(c) => c, None => Color::Reset }), ..style }
            &&& v == 30 ==> r == Style { fg: Some(Color::Black), ..style }
            &&& v == 31 ==> r == Style { fg: Some(Color::Red), ..style }
            &&& v == 32 ==> r == Style { fg: Some(Color::Green), ..style }
            &&& v == 33 ==> r == Style { fg: Some(Color::Yellow), ..style }
            &&& v == 34 ==> r == Style { fg: Some(Color::Blue), ..style }
            &&& v == 35 ==> r == Style { fg: Some(Color::Magenta), ..style }
            &&& v == 36 ==> r == Style { fg: Some(Color::Cyan), ..style }
            &&& v == 37 ==> r == Style { fg: Some(Color::Gray), ..style }
            &&& v == 90 ==> r == Style { fg: Some(Color::DarkGray), ..style }
            &&& v == 91 ==> r == Style { fg: Some(Color::LightRed), ..style }
            &&& v == 92 ==> r == Style { fg: Some(Color::LightGreen), ..style }
            &&& v == 93 ==> r == Style { fg: Some(Color::LightYellow), ..style }
            &&& v == 94 ==> r == Style { fg: Some(Color::LightBlue), ..style }
            &&& v == 95 ==> r == Style { fg: Some(Color::LightMagenta), ..style }
            &&& v == 96 ==> r == Style { fg: Some(Color::LightCyan), ..style }
            &&& v == 97 ==> r == Style { fg: Some(Color::White), ..style }
            &&& v == 40 ==> r == Style { bg: Some(Color::Black), ..style }
            &&& v == 41 ==> r == Style { bg: Some(Color::Red), ..style }
            &&& v == 42 ==> r == Style { bg: Some(Color::Green), ..style }
            &&& v == 43 ==> r == Style { bg: Some(Color::Yellow), ..style }
            &&& v == 44 ==> r == Style { bg: Some(Color::Blue), ..style }
            &&& v == 45 ==> r == Style { bg: Some(Color::Magenta), ..style }
            &&& v == 46 ==> r == Style { bg: Some(Color::Cyan), ..style }
            &&& v == 47 ==> r == Style { bg: Some(Color::Gray), ..style }
            &&& v == 100 ==> r == Style { bg: Some(Color::DarkGray), ..style }
            &&& v == 101 ==> r == Style { bg: Some(Color::LightRed), ..style }
            &&& v == 102 ==> r == Style { bg: Some(Color::LightGreen), ..style }
            &&& v == 103 ==> r == Style { bg: Some(Color::LightYellow), ..style }
            &&& v == 104 ==> r == Style { bg: Some(Color::LightBlue), ..style }
            &&& v == 105 ==> r == Style { bg: Some(Color::LightMagenta), ..style }
            &&& v == 106 ==> r == Style { bg: Some(Color::LightCyan), ..style }
            &&& v == 107 ==> r == Style { bg: Some(Color::White), ..style }
            &&& !(v == 0 || v == 1 || v == 2 || v == 3 || v == 4 || v == 7 || v == 22 || v == 23 || v == 24 || v == 27 || v == 39 || v == 49 || (30 <= v <= 37) || (40 <= v <= 47) || (90 <= v <= 97) || (100 <= v <= 107)) ==> r == style
        }),
{
    assert(0x0001u16 | 0x0002u16 == 0x0003u16) by (bit_vector);
    assert(MODIFIER_BOLD | MODIFIER_DIM == 0x0003u16);
    assert(seq![v][0] == v);
    if v == 38 || v == 48 {
        assert(extended_spec(seq![v], 0) is None);
        assert(sgr_run(seq![v], 1, style, default) == style);
    } else {
        assert(sgr_run(seq![v], 1, sgr_simple(style, default, v), default) == sgr_simple(
            style,
            default,
            v,
        ));
        assert(sgr_run(seq![v], 0, style, default) == sgr_simple(style, default, v));
    }
}

/// A parameter string of one decimal number `v` has the effect of that SGR
/// number, as `lemma_sgr_code_table` gives it.
pub proof fn lemma_sgr_single_number(style: Style, default: Style, params: Seq<char>)
    requires
        params.len() > 0,
        all_ascii_digits(params),
        decimal_value(params) <= 255,
    ensures
        apply_sgr_spec(style, default, params) == sgr_run(
            seq![decimal_value(params) as u8],
            0,
            style,
            default,
        ),
{
    assert forall|j: int| 0 <= j < params.len() implies params[j] != ';' by {
        assert(is_ascii_digit(params[j]));
    }
    lemma_first_semi_at(params, params.len() as int);
    assert(split_semis(params) == seq![params]);
    assert(is_ascii_digit(params[0]));
    assert(unsigned_digits(params) == params);
    lemma_sgr_numbers_cons(params, seq![]);
    assert(seq![params] + Seq::<Seq<char>>::empty() =~= seq![params]);
    assert(sgr_values(params) == seq![decimal_value(params) as u8]);
}

/// Numbers in one parameter string act one after the other: the effect of
/// `v;rest` is the effect of `rest` on the style that `v` gave (`v` being
/// neither 38 nor 48, which read the numbers after them).
pub proof fn lemma_sgr_sequence(values: Seq<u8>, index: int, style: Style, default: Style)
    requires
        0 <= index < values.len(),
        values[index] != 38,
        values[index] != 48,
    ensures
        sgr_run(values, index, style, default) == sgr_run(
            values,
            index + 1,
            sgr_run(seq![values[index]], 0, style, default),
            default,
        ),
{
    lemma_sgr_code_table(style, default, values[index]);
    let v = values[index];
    assert(sgr_run(seq![v], 1, sgr_simple(style, default, v), default) == sgr_simple(style, default, v));
}

/// `38;5;n` sets the foreground to palette color `n` and `38;2;r;g;b` to the
/// RGB color; `48` does the same for the background. The numbers after the
/// color then act as usual; an incomplete color form changes nothing.
pub proof fn lemma_sgr_extended(values: Seq<u8>, index: int, style: Style, default: Style)
    requires
        0 <= index < values.len(),
        values[index] == 38 || values[index] == 48,
    ensures
        ({
            let fg = values[index] == 38;
            let r = sgr_run(values, index, style, default);
            &&& index + 2 < values.len() && values[index + 1] == 5 ==> r == sgr_run(
                values,
                index + 3,
                if fg {
                    Style { fg: Some(Color::Indexed(values[index + 2])), ..style }
                } else {
                    Style { bg: Some(Color::Indexed(values[index + 2])), ..style }
                },
                default,
            )
            &&& index + 4 < values.len() && values[index + 1] == 2 ==> r == sgr_run(
                values,
                index + 5,
                if fg {
                    Style {
                        fg: Some(Color::Rgb(values[index + 2], values[index + 3], values[index + 4])),
                        ..style
                    }
                } else {
                    Style {
                        bg: Some(Color::Rgb(values[index + 2], values[index + 3], values[index + 4])),
                        ..style
                    }
                },
                default,
            )
            &&& !(index + 2 < values.len() && values[index + 1] == 5) && !(index + 4 < values.len()
                && values[index + 1] == 2) ==> r == sgr_run(values, index + 1, style, default)
        }),
{
}

/// `ESC [ 0 m` and `ESC [ m` go back to the default style, whatever the
/// style before.
pub proof fn lemma_sgr_reset(style: Style, default: Style)
    ensures
        apply_sgr_spec(style, default, "0"@) == default,
        apply_sgr_spec(style, default, Seq::<char>::empty()) == default,
{
    reveal_strlit("0");
    let zero = "0"@;
    assert(zero == seq!['0']);
    assert(first_semi(zero.drop_first()) == 0);
    assert(first_semi(zero) == 1);
    assert(split_semis(zero) == seq![zero]);
    assert(unsigned_digits(zero) == zero);
    assert(zero.drop_last().len() == 0);
    assert(zero.last() == '0');
    assert(decimal_value(zero.drop_last()) == 0);
    assert(('0' as u32) == 0x30);
    assert(decimal_value(zero) == 0);
    assert(parse_u8_spec(zero) == Some(0u8));
    lemma_sgr_numbers_cons(zero, seq![]);
    assert(seq![zero] + Seq::<Seq<char>>::empty() =~= seq![zero]);
    assert(sgr_values(zero) == seq![0u8]);
    let empty = Seq::<char>::empty();
    assert(split_semis(empty) == seq![empty]);
    assert(parse_u8_spec(empty) is None);
    lemma_sgr_numbers_cons(empty, seq![]);
    assert(seq![empty] + Seq::<Seq<char>>::empty() =~= seq![empty]);
    assert(sgr_values(empty) == seq![0u8]);
    assert(sgr_simple(style, default, 0) == default);
    assert(sgr_run(seq![0u8], 1, default, default) == default);
    assert(sgr_run(seq![0u8], 0, style, default) == sgr_run(seq![0u8], 1, default, default));
}

} // verus!
