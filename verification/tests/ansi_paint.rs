use herdr::ansi_fit::{fit_rows, leading_pad, pin_bottom, row_is_blank, skip_display_cols, take_display_cols};
use herdr::ansi_paint::{paint_cells, PaintCell};
use herdr::ansi_parse::parse_ansi_rows;
use herdr::rect::Rect;
use herdr::sgr::{apply_sgr, basic_color, extended_color, parse_u8, sgr_values_of};
use herdr::style::{Color, Style, MODIFIER_BOLD, MODIFIER_DIM, MODIFIER_ITALIC};

fn text_rows(rows: &[Vec<(char, Style)>]) -> Vec<String> {
    rows.iter()
        .map(|row| row.iter().map(|(ch, _)| ch).collect())
        .collect()
}

fn chars(s: &str) -> Vec<char> {
    s.chars().collect()
}

fn plain(s: &str) -> Vec<(char, Style)> {
    s.chars().map(|c| (c, Style::default())).collect()
}

#[test]
fn indexed_foreground_survives_sgr() {
    let default = Style::default().fg(Color::White).bg(Color::Black);
    let rows = parse_ansi_rows("\u{1b}[38;5;81mPIX\u{1b}[0m", default);
    assert_eq!(rows[0].len(), 3);
    assert_eq!(rows[0][0].0, 'P');
    assert_eq!(rows[0][0].1.fg, Some(Color::Indexed(81)));
}

#[test]
fn live_bottom_keeps_prompt_when_card_is_shorter() {
    let default = Style::default();
    let mut lines = vec!["PIX".to_owned(), "ready".to_owned()];
    lines.extend(std::iter::repeat_n(" ".to_owned(), 8));
    lines.push("> hello".to_owned());
    lines.push(".pi | grok-4.6".to_owned());
    let fitted = fit_rows(parse_ansi_rows(&lines.join("\n"), default), 4, 20);
    let text = text_rows(&fitted);
    assert_eq!(fitted.len(), 4);
    assert!(text.iter().any(|line| line.contains("hello")));
    assert!(text.last().unwrap().contains("grok-4.6"));
}

#[test]
fn conversation_uses_latest_rows_and_fills_card() {
    let default = Style::default();
    let mut lines = Vec::new();
    for index in 0..20 {
        lines.push(format!("msg {index}"));
    }
    lines.push("> prompt".to_owned());
    let fitted = fit_rows(parse_ansi_rows(&lines.join("\n"), default), 8, 20);
    let text = text_rows(&fitted);
    assert_eq!(fitted.len(), 8);
    assert!(text[0].contains("msg 13") || text[0].contains("msg 14"));
    assert!(text.last().unwrap().contains("prompt"));
}

#[test]
fn short_content_pins_prompt_to_bottom() {
    let default = Style::default();
    let fitted = fit_rows(parse_ansi_rows("hi\n\n> prompt", default), 5, 20);
    let text = text_rows(&fitted);
    assert_eq!(fitted.len(), 5);
    assert!(text[4].contains("prompt"));
    assert!(text[0].is_empty());
}

#[test]
fn parse_splits_lines_and_drops_controls() {
    let rows = parse_ansi_rows("ab\r\ncd\u{7}e\n", Style::default());
    assert_eq!(text_rows(&rows), vec!["ab", "cde", ""]);
    let rows = parse_ansi_rows("", Style::default());
    assert_eq!(rows.len(), 1);
    assert!(rows[0].is_empty());
}

#[test]
fn parse_skips_osc_and_other_escapes() {
    let rows = parse_ansi_rows("\u{1b}]0;title\u{7}x\u{1b}]2;t\u{1b}\\y\u{1b}(Bz\u{1b}[2Kw", Style::default());
    assert_eq!(text_rows(&rows), vec!["xyBzw"]);
    // an escape at the very end shows nothing
    let rows = parse_ansi_rows("a\u{1b}", Style::default());
    assert_eq!(text_rows(&rows), vec!["a"]);
    // an unterminated CSI swallows the rest
    let rows = parse_ansi_rows("a\u{1b}[12;3", Style::default());
    assert_eq!(text_rows(&rows), vec!["a"]);
}

#[test]
fn parse_applies_sgr_to_following_text() {
    let default = Style::default().fg(Color::White);
    let rows = parse_ansi_rows("a\u{1b}[1;31mb\u{1b}[mc", default);
    assert_eq!(rows[0][0].1, default);
    assert_eq!(rows[0][1].1, default.add_modifier(MODIFIER_BOLD).fg(Color::Red));
    // an empty parameter list resets
    assert_eq!(rows[0][2].1, default);
}

#[test]
fn sgr_codes() {
    let default = Style::default().fg(Color::White).bg(Color::Black);
    let base = Style::default();
    let p = |s: &str| chars(s);
    assert_eq!(apply_sgr(base, default, &p("0")), default);
    assert_eq!(apply_sgr(base, default, &p("")), default);
    assert_eq!(apply_sgr(base, default, &p("1")), base.add_modifier(MODIFIER_BOLD));
    assert_eq!(
        apply_sgr(base, default, &p("1;2;22")),
        base.add_modifier(MODIFIER_BOLD).add_modifier(MODIFIER_DIM).remove_modifier(MODIFIER_BOLD | MODIFIER_DIM)
    );
    assert_eq!(apply_sgr(base, default, &p("3;23")).sub_modifier, MODIFIER_ITALIC);
    assert_eq!(apply_sgr(base, default, &p("32")).fg, Some(Color::Green));
    assert_eq!(apply_sgr(base, default, &p("97")).fg, Some(Color::White));
    assert_eq!(apply_sgr(base, default, &p("90")).fg, Some(Color::DarkGray));
    assert_eq!(apply_sgr(base, default, &p("44")).bg, Some(Color::Blue));
    assert_eq!(apply_sgr(base, default, &p("101")).bg, Some(Color::LightRed));
    assert_eq!(apply_sgr(base, default, &p("39")).fg, Some(Color::White));
    assert_eq!(apply_sgr(base, default, &p("49")).bg, Some(Color::Black));
    assert_eq!(apply_sgr(base, base, &p("39")).fg, Some(Color::Reset));
    assert_eq!(apply_sgr(base, default, &p("38;2;1;2;3")).fg, Some(Color::Rgb(1, 2, 3)));
    assert_eq!(apply_sgr(base, default, &p("48;5;200")).bg, Some(Color::Indexed(200)));
    // an incomplete extended color changes nothing, the numbers after it still count
    assert_eq!(apply_sgr(base, default, &p("38;5")), base);
    assert_eq!(apply_sgr(base, default, &p("38;9;31")).fg, Some(Color::Red));
    // numbers that do not parse count as 0
    assert_eq!(apply_sgr(base, default, &p("x")), default);
    assert_eq!(apply_sgr(base, default, &p("300")), default);
    assert_eq!(apply_sgr(base, default, &p("+1")), base.add_modifier(MODIFIER_BOLD));
}

#[test]
fn sgr_values_split_on_semicolons() {
    assert_eq!(sgr_values_of(&chars("38;5;81")), vec![38, 5, 81]);
    assert_eq!(sgr_values_of(&chars("")), vec![0]);
    assert_eq!(sgr_values_of(&chars(";1;")), vec![0, 1, 0]);
    assert_eq!(sgr_values_of(&chars("256;-1;007")), vec![0, 0, 7]);
}

#[test]
fn parse_u8_follows_from_str() {
    let c = chars("+12x255256007-1+");
    assert_eq!(parse_u8(&c, 0, 3), Some(12));
    assert_eq!(parse_u8(&c, 0, 4), None);
    assert_eq!(parse_u8(&c, 4, 7), Some(255));
    assert_eq!(parse_u8(&c, 7, 10), None);
    assert_eq!(parse_u8(&c, 10, 13), Some(7));
    assert_eq!(parse_u8(&c, 13, 15), None);
    assert_eq!(parse_u8(&c, 15, 16), None);
    assert_eq!(parse_u8(&c, 3, 3), None);
}

#[test]
fn extended_and_basic_colors() {
    let values = [38u8, 2, 10, 20, 30, 7];
    let mut index = 0;
    assert_eq!(extended_color(&values, &mut index), Some(Color::Rgb(10, 20, 30)));
    assert_eq!(index, 4);
    let mut index = 3;
    assert_eq!(extended_color(&values, &mut index), None);
    assert_eq!(index, 3);
    let values = [48u8, 5];
    let mut index = 0;
    assert_eq!(extended_color(&values, &mut index), None);
    assert_eq!(index, 0);
    assert_eq!(basic_color(0, false), Color::Black);
    assert_eq!(basic_color(7, false), Color::Gray);
    assert_eq!(basic_color(7, true), Color::White);
    assert_eq!(basic_color(6, true), Color::LightCyan);
    assert_eq!(basic_color(9, false), Color::White);
}

#[test]
fn display_columns_use_unicode_widths() {
    // '漢' is two columns wide, a combining accent none
    let row = plain("漢字ab");
    assert_eq!(take_display_cols(&row, 3).len(), 1);
    assert_eq!(take_display_cols(&row, 4).len(), 2);
    assert_eq!(take_display_cols(&row, 0).len(), 0);
    assert_eq!(skip_display_cols(&row, 1).len(), 3);
    assert_eq!(skip_display_cols(&row, 2).len(), 3);
    assert_eq!(skip_display_cols(&row, 0).len(), 4);
    assert_eq!(skip_display_cols(&row, 100).len(), 0);
    let accented = plain("e\u{301}x");
    assert_eq!(take_display_cols(&accented, 1).len(), 2);
    // control characters count as one column
    assert_eq!(take_display_cols(&plain("\u{1}\u{2}"), 1).len(), 1);
}

#[test]
fn leading_pad_is_shared_indent() {
    let rows = vec![plain("    a"), plain("  b"), plain("     "), plain("\u{3000}c")];
    assert_eq!(leading_pad(&rows), 2);
    assert_eq!(leading_pad(&[plain("   "), Vec::new()]), 0);
    assert_eq!(leading_pad(&[]), 0);
    assert!(row_is_blank(&plain(" \t ")));
    assert!(!row_is_blank(&plain(" x ")));
    assert!(row_is_blank(&[]));
}

#[test]
fn fit_rows_removes_shared_indent_and_cuts_width() {
    let fitted = fit_rows(vec![plain("   abcdef"), plain("     gh"), Vec::new(), Vec::new()], 3, 4);
    assert_eq!(text_rows(&fitted), vec!["", "abcd", "  gh"]);
    assert!(fit_rows(vec![plain("a")], 0, 4).is_empty());
    // width 0 keeps the rows whole
    let fitted = fit_rows(vec![plain("abc")], 1, 0);
    assert_eq!(text_rows(&fitted), vec!["abc"]);
}

#[test]
fn pin_bottom_pads_or_keeps_last_rows() {
    let rows = vec![plain("a"), plain("b"), plain("c")];
    assert_eq!(text_rows(&pin_bottom(rows.clone(), 5)), vec!["", "", "a", "b", "c"]);
    assert_eq!(text_rows(&pin_bottom(rows.clone(), 2)), vec!["b", "c"]);
    assert_eq!(text_rows(&pin_bottom(rows, 3)), vec!["a", "b", "c"]);
}

#[test]
fn paint_cells_place_characters_inside_area() {
    let area = Rect::new(10, 5, 4, 2);
    let cells = paint_cells(area, "ab\n漢字x", Style::default());
    let placed: Vec<(u16, u16, char, u16)> = cells.iter().map(|c| (c.x, c.y, c.symbol, c.width)).collect();
    assert_eq!(
        placed,
        vec![(10, 5, 'a', 1), (11, 5, 'b', 1), (10, 6, '漢', 2), (12, 6, '字', 2)]
    );
    assert!(paint_cells(Rect::new(0, 0, 0, 3), "abc", Style::default()).is_empty());
    let styled = paint_cells(Rect::new(0, 0, 5, 1), "\u{1b}[31mz", Style::default());
    assert_eq!(
        styled,
        vec![PaintCell { x: 0, y: 0, symbol: 'z', width: 1, style: Style::default().fg(Color::Red) }]
    );
}

#[test]
fn paint_cells_skip_zero_width_and_stop_at_edge() {
    let cells = paint_cells(Rect::new(0, 0, 3, 1), "e\u{301}漢字", Style::default());
    let placed: Vec<(u16, char)> = cells.iter().map(|c| (c.x, c.symbol)).collect();
    // fit_rows keeps "e", the accent and "漢" within 3 columns; the accent is not drawn
    assert_eq!(placed, vec![(0, 'e'), (1, '漢')]);
}

#[test]
fn rows_per_line_without_escapes() {
    let text = "one\n\ntwo\r\nthree\n";
    let rows = parse_ansi_rows(text, Style::default());
    assert_eq!(rows.len(), text.matches('\n').count() + 1);
}

#[test]
fn bottom_line_is_last_non_empty_row() {
    let rows = parse_ansi_rows("  first\n  second line\n  > prompt\n\n\n", Style::default());
    let fitted = fit_rows(rows, 2, 6);
    assert_eq!(text_rows(&fitted), vec!["second", "> prom"]);
}

#[test]
fn sgr_reset_returns_default_from_any_style() {
    let default = Style::default().bg(Color::Blue);
    let styled = default.fg(Color::Red).add_modifier(MODIFIER_BOLD);
    assert_eq!(apply_sgr(styled, default, &chars("0")), default);
    assert_eq!(apply_sgr(styled, default, &[]), default);
}

#[test]
fn plain_text_reads_back_in_default_style() {
    let default = Style::default().fg(Color::Cyan);
    let rows = parse_ansi_rows("ab\n\nc d", default);
    assert_eq!(rows, vec![vec![('a', default), ('b', default)], vec![], vec![('c', default), (' ', default), ('d', default)]]);
}

#[test]
fn extended_color_past_the_end_is_none() {
    let values = [38u8, 5, 81];
    let mut index = 3;
    assert_eq!(extended_color(&values, &mut index), None);
    assert_eq!(index, 3);
    let mut index = 10;
    assert_eq!(extended_color(&values, &mut index), None);
    assert_eq!(index, 10);
}

#[test]
fn default_underline_color_reaches_every_cell() {
    let default = Style::default().underline_color(Color::Green);
    let rows = parse_ansi_rows("a\u{1b}[1;31mb\u{1b}[0mc", default);
    for (_, style) in &rows[0] {
        assert_eq!(style.underline_color, Some(Color::Green));
    }
}

#[test]
fn paint_cells_at_the_plane_edge_stay_inside() {
    let area = Rect::new(65530, 0, 5, 1);
    let cells = paint_cells(area, "ab漢字", Style::default());
    let placed: Vec<(u16, char)> = cells.iter().map(|c| (c.x, c.symbol)).collect();
    assert_eq!(placed, vec![(65530, 'a'), (65531, 'b'), (65532, '漢')]);
    for c in &cells {
        assert!(c.x as u32 + c.width as u32 <= area.x as u32 + area.width as u32);
    }
}
