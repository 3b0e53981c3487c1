//! Painting a visible-screen ANSI dump into a card: which character goes to
//! which terminal cell, and in which style. Whoever owns the screen buffer
//! writes the cells; nothing here touches a PTY.

use vstd::prelude::*;
use crate::ansi_fit::{
    all_styled, fit_rows, fit_spec, lemma_fit_keeps_styles, row_width, rows_fit_memory,
};
use crate::ansi_parse::{
    Cell, is_plain_text, lemma_plain_text_rows, parse_ansi_rows, parse_from, parse_spec, rows_view,
    split_lines, styled, styled_lines,
};
use crate::rect::Rect;
use crate::style::Style;
use crate::text::{cell_width, display_width};

verus! {

/// One character to draw: at column `x`, row `y`, taking `width` columns.
#[derive(Clone, Copy, Debug, PartialEq, Eq, Structural)]
pub struct PaintCell {
    pub x: u16,
    pub y: u16,
    pub symbol: char,
    pub width: u16,
    pub style: Style,
}

/// `a + b`, saturating at `u16::MAX`.
pub open spec fn sat_add_u16(a: int, b: int) -> int {
    if a + b > u16::MAX {
        u16::MAX as int
    } else {
        a + b
    }
}

/// The cell drawn for `cell` at column `x` of line `y`.
pub open spec fn paint_cell(x: int, y: u16, cell: Cell) -> PaintCell {
    PaintCell { x: x as u16, y, symbol: cell.0, width: display_width(cell.0) as u16, style: cell.1 }
}

/// The cells that `row` fills on line `y` from column `x`, stopping before
/// the first character that would cross `right`; zero-width characters are
/// left out.
pub open spec fn row_paint(row: Seq<Cell>, x: int, right: int, y: u16) -> Seq<PaintCell>
    decreases row.len(),
{
    if row.len() == 0 {
        Seq::empty()
    } else {
        let ch = row[0].0;
        let w = display_width(ch);
        if w == 0 {
            row_paint(row.drop_first(), x, right, y)
        } else if sat_add_u16(x, w as int) > right {
            Seq::empty()
        } else {
            seq![paint_cell(x, y, row[0])] + row_paint(row.drop_first(), sat_add_u16(x, w as int), right, y)
        }
    }
}

/// The cells of `rows[k..]`, row `k` going to line `area.y + k`, stopping at
/// the first line below the area.
pub open spec fn rows_paint(rows: Seq<Seq<Cell>>, k: int, area: Rect) -> Seq<PaintCell>
    decreases rows.len() - k,
{
    if k < 0 || k >= rows.len() {
        Seq::empty()
    } else {
        let y = sat_add_u16(area.y as int, (k as u16) as int);
        if y >= sat_add_u16(area.y as int, area.height as int) {
            Seq::empty()
        } else {
            row_paint(rows[k], area.x as int, sat_add_u16(area.x as int, area.width as int), y as u16)
                + rows_paint(rows, k + 1, area)
        }
    }
}

/// What painting the dump `ansi` into `area` draws.
pub open spec fn paint_spec(area: Rect, ansi: Seq<char>, default: Style) -> Seq<PaintCell> {
    if area.width == 0 || area.height == 0 {
        Seq::empty()
    } else {
        rows_paint(
            fit_spec(parse_spec(ansi, default), area.height as int, area.width as int),
            0,
            area,
        )
    }
}

/// No row of `rows` is longer than `bound`.
pub open spec fn rows_within(rows: Seq<Seq<Cell>>, bound: int) -> bool {
    forall|k: int| 0 <= k < rows.len() ==> #[trigger] rows[k].len() <= bound
}

/// No parsed row is longer than the text it came from.
pub proof fn lemma_parse_row_len(
    s: Seq<char>,
    i: int,
    default: Style,
    done: Seq<Seq<Cell>>,
    cur: Seq<Cell>,
    style: Style,
    bound: int,
)
    requires
        0 <= i <= s.len(),
        forall|k: int| 0 <= k < done.len() ==> #[trigger] done[k].len() <= bound,
        cur.len() + (s.len() - i) <= bound,
    ensures
        rows_within(parse_from(s, i, default, done, cur, style), bound),
    decreases s.len() - i,
{
    if i >= s.len() {
        let r = done.push(cur);
        assert forall|k: int| 0 <= k < r.len() implies #[trigger] r[k].len() <= bound by {
            if k < done.len() {
                assert(r[k] == done[k]);
            }
        }
    } else {
        let ch = s[i];
        if ch == '\n' {
            let d = done.push(cur);
            assert forall|k: int| 0 <= k < d.len() implies #[trigger] d[k].len() <= bound by {
                if k < done.len() {
                    assert(d[k] == done[k]);
                }
            }
            lemma_parse_row_len(s, i + 1, default, d, Seq::empty(), style, bound);
        } else if ch == '\r' {
            lemma_parse_row_len(s, i + 1, default, done, cur, style, bound);
        } else if ch == '\u{1b}' {
            if i + 1 < s.len() {
                crate::ansi_parse::lemma_escape_ends(s, i + 2);
                if s[i + 1] == '[' {
                    let e = crate::ansi_parse::csi_end(s, i + 2);
                    let next_style = if e > i + 2 && s[e - 1] == 'm' {
                        crate::sgr::apply_sgr_spec(style, default, s.subrange(i + 2, e - 1))
                    } else {
                        style
                    };
                    lemma_parse_row_len(s, e, default, done, cur, next_style, bound);
                } else if s[i + 1] == ']' {
                    lemma_parse_row_len(
                        s,
                        crate::ansi_parse::osc_end(s, i + 2),
                        default,
                        done,
                        cur,
                        style,
                        bound,
                    );
                } else {
                    lemma_parse_row_len(s, i + 2, default, done, cur, style, bound);
                }
            } else {
                lemma_parse_row_len(s, i + 1, default, done, cur, style, bound);
            }
        } else if !crate::text::is_control_char(ch) {
            lemma_parse_row_len(s, i + 1, default, done, cur.push((ch, style)), style, bound);
        } else {
            lemma_parse_row_len(s, i + 1, default, done, cur, style, bound);
        }
    }
}

fn paint_row(out: &mut Vec<PaintCell>, row: &[Cell], x0: u16, right: u16, y: u16)
    ensures
        final(out)@ == old(out)@ + row_paint(row@, x0 as int, right as int, y),
{
    let mut x = x0;
    let mut i: usize = 0;
    let mut stop = false;
    let ghost start = out@;
    let ghost whole = row_paint(row@, x0 as int, right as int, y);
    assert(row@.skip(0) =~= row@);
    assert(start + whole =~= out@ + row_paint(row@.skip(0), x0 as int, right as int, y));
    while i < row.len() && !stop
        invariant
            i <= row@.len(),
            whole == row_paint(row@, x0 as int, right as int, y),
            stop ==> start + whole == out@,
            !stop ==> start + whole == out@ + row_paint(row@.skip(i as int), x as int, right as int, y),
        decreases row@.len() - i + (if stop {
            0int
        } else {
            1int
        }),
    {
        let (ch, style) = row[i];
        let width = cell_width(ch) as u16;
        let ghost t = row@.skip(i as int);
        proof {
            assert(t.drop_first() =~= row@.skip(i + 1));
            assert(t[0] == row@[i as int]);
            assert(display_width(ch) == width);
        }
        if width == 0 {
            i = i + 1;
        } else if x.saturating_add(width) > right {
            proof {
                assert(row_paint(t, x as int, right as int, y) == Seq::<PaintCell>::empty());
                assert(out@ + Seq::<PaintCell>::empty() =~= out@);
            }
            stop = true;
        } else {
            let ghost before = out@;
            let c = PaintCell { x, y, symbol: ch, width, style };
            proof {
                assert(t[0] == (ch, style));
                assert(display_width(ch) == width as nat);
                assert(c == paint_cell(x as int, y, t[0]));
            }
            out.push(c);
            proof {
                assert(out@ == before.push(c));
                assert(before + (seq![c] + row_paint(
                    t.drop_first(),
                    sat_add_u16(x as int, width as int),
                    right as int,
                    y,
                )) =~= out@ + row_paint(
                    t.drop_first(),
                    sat_add_u16(x as int, width as int),
                    right as int,
                    y,
                ));
            }
            x = x.saturating_add(width);
            i = i + 1;
        }
    }
    proof {
        if !stop {
            assert(row@.skip(i as int) =~= Seq::<Cell>::empty());
            assert(out@ + Seq::<PaintCell>::empty() =~= out@);
        }
    }
}

/// The cells that painting the ANSI dump `ansi` into `area` draws, starting
/// in the `default` style: the dump is fitted to the area (see `fit_rows`),
/// row `k` goes to line `area.y + k`, and each row is drawn from the left
/// edge until a character would cross the right edge.
pub fn paint_cells(area: Rect, ansi: &str, default: Style) -> (r: Vec<PaintCell>)
    requires
        // the parsed cells, each wider than four bytes, fit in memory
        ansi@.len() <= usize::MAX / 4,
    ensures
        r@ == paint_spec(area, ansi@, default),
{
    let mut out: Vec<PaintCell> = Vec::new();
    if area.width == 0 || area.height == 0 {
        return out;
    }
    let rows = parse_ansi_rows(ansi, default);
    proof {
        lemma_parse_row_len(
            ansi@,
            0,
            default,
            Seq::empty(),
            Seq::empty(),
            default,
            ansi@.len() as int,
        );
        assert(rows_within(parse_spec(ansi@, default), ansi@.len() as int));
        assert(rows_fit_memory(rows_view(rows@)));
    }
    let fitted = fit_rows(rows, area.height as usize, area.width as usize);
    let ghost fv = rows_view(fitted@);
    let bottom = area.bottom();
    let right = area.right();
    let mut row_index: usize = 0;
    while row_index < fitted.len()
        invariant_except_break
            row_index <= fitted@.len(),
            fv == rows_view(fitted@),
            bottom == sat_add_u16(area.y as int, area.height as int),
            right == sat_add_u16(area.x as int, area.width as int),
            rows_paint(fv, 0, area) == out@ + rows_paint(fv, row_index as int, area),
        ensures
            rows_paint(fv, 0, area) == out@,
        decreases fitted@.len() - row_index,
    {
        let y = area.y.saturating_add(row_index as u16);
        if y >= bottom {
            proof {
                assert(out@ + Seq::<PaintCell>::empty() =~= out@);
            }
            break;
        }
        let ghost before = out@;
        paint_row(&mut out, fitted[row_index].as_slice(), area.x, right, y);
        proof {
            assert(fv[row_index as int] == fitted@[row_index as int]@);
            assert(before + (row_paint(fv[row_index as int], area.x as int, right as int, y)
                + rows_paint(fv, row_index + 1, area)) =~= out@ + rows_paint(
                fv,
                row_index + 1,
                area,
            ));
        }
        row_index = row_index + 1;
    }
    proof {
        if row_index >= fitted@.len() {
            assert(out@ + Seq::<PaintCell>::empty() =~= out@);
        }
    }
    out
}

/// The cells come in reading order, and no two of them overlap.
pub open spec fn cells_in_order(cells: Seq<PaintCell>) -> bool {
    forall|i: int, j: int|
        0 <= i < j < cells.len() ==> (#[trigger] cells[i]).y < (#[trigger] cells[j]).y || (
        cells[i].y == cells[j].y && cells[i].x + cells[i].width <= cells[j].x)
}

/// Every cell takes at least one column and lies inside `area`.
pub open spec fn cells_inside(cells: Seq<PaintCell>, area: Rect) -> bool {
    forall|i: int|
        0 <= i < cells.len() ==> {
            &&& area.x <= (#[trigger] cells[i]).x
            &&& cells[i].x + cells[i].width <= area.x + area.width
            &&& area.y <= cells[i].y
            &&& cells[i].y < area.y + area.height
            &&& cells[i].width >= 1
        }
}

proof fn lemma_row_paint_layout(row: Seq<Cell>, x: int, right: int, y: u16)
    requires
        0 <= x <= right <= u16::MAX,
        x + row_width(row) <= right,
    ensures
        cells_in_order(row_paint(row, x, right, y)),
        forall|k: int|
            0 <= k < row_paint(row, x, right, y).len() ==> {
                &&& (#[trigger] row_paint(row, x, right, y)[k]).y == y
                &&& x <= row_paint(row, x, right, y)[k].x
                &&& row_paint(row, x, right, y)[k].x + row_paint(row, x, right, y)[k].width <= right
                &&& row_paint(row, x, right, y)[k].width >= 1
            },
    decreases row.len(),
{
    if row.len() > 0 {
        let w = display_width(row[0].0);
        assert(row_width(row) == w + row_width(row.drop_first()));
        if w == 0 {
            lemma_row_paint_layout(row.drop_first(), x, right, y);
        } else {
            assert(sat_add_u16(x, w as int) == x + w);
            let nx = x + w;
            lemma_row_paint_layout(row.drop_first(), nx, right, y);
            let rest = row_paint(row.drop_first(), nx, right, y);
            let cell = paint_cell(x, y, row[0]);
            let all = row_paint(row, x, right, y);
            assert(all == seq![cell] + rest);
            assert(cell.x == x && cell.width == w);
            assert forall|k: int| 0 < k < all.len() implies #[trigger] all[k] == rest[k - 1] by {}
            assert(all[0] == cell);
            assert forall|i: int, j: int| 0 <= i < j < all.len() implies (#[trigger] all[i]).y < (
            #[trigger] all[j]).y || (all[i].y == all[j].y && all[i].x + all[i].width <= all[j].x) by {
                if i > 0 {
                    assert(all[i] == rest[i - 1] && all[j] == rest[j - 1]);
                } else {
                    assert(all[j] == rest[j - 1]);
                }
            }
        }
    }
}

proof fn lemma_rows_paint_layout(rows: Seq<Seq<Cell>>, k: int, area: Rect)
    requires
        rows.len() <= u16::MAX,
        0 <= k,
        area.x + area.width <= u16::MAX,
        forall|j: int| 0 <= j < rows.len() ==> row_width(#[trigger] rows[j]) <= area.width,
    ensures
        cells_inside(rows_paint(rows, k, area), area),
        cells_in_order(rows_paint(rows, k, area)),
        forall|i: int|
            0 <= i < rows_paint(rows, k, area).len() ==> #[trigger] rows_paint(rows, k, area)[i].y
                >= area.y + k,
    decreases rows.len() - k,
{
    if k < rows.len() {
        let y = sat_add_u16(area.y as int, (k as u16) as int);
        assert((k as u16) as int == k);
        if y < sat_add_u16(area.y as int, area.height as int) {
            let right = area.x + area.width;
            assert(row_width(rows[k]) <= area.width);
            lemma_row_paint_layout(rows[k], area.x as int, right, y as u16);
            lemma_rows_paint_layout(rows, k + 1, area);
            let first = row_paint(rows[k], area.x as int, right, y as u16);
            let rest = rows_paint(rows, k + 1, area);
            let all = rows_paint(rows, k, area);
            assert(all == first + rest);
            assert(y == area.y + k);
            assert forall|i: int| 0 <= i < all.len() implies #[trigger] all[i] == (if i < first.len() {
                first[i]
            } else {
                rest[i - first.len()]
            }) by {}
            assert forall|i: int| 0 <= i < all.len() implies {
                &&& area.x <= (#[trigger] all[i]).x
                &&& all[i].x + all[i].width <= area.x + area.width
                &&& area.y <= all[i].y
                &&& all[i].y < area.y + area.height
                &&& all[i].width >= 1
                &&& all[i].y >= area.y + k
            } by {
                if i < first.len() {
                    assert(all[i] == first[i]);
                } else {
                    assert(all[i] == rest[i - first.len()]);
                }
            }
            assert forall|i: int, j: int| 0 <= i < j < all.len() implies (#[trigger] all[i]).y < (
            #[trigger] all[j]).y || (all[i].y == all[j].y && all[i].x + all[i].width <= all[j].x) by {
                if j < first.len() {
                    assert(all[i] == first[i] && all[j] == first[j]);
                } else if i < first.len() {
                    assert(all[i] == first[i] && all[j] == rest[j - first.len()]);
                } else {
                    assert(all[i] == rest[i - first.len()] && all[j] == rest[j - first.len()]);
                }
            }
        }
    }
}

/// Painting stays inside the area: every drawn character lies within it,
/// the characters come in reading order, and no two of them overlap. (An
/// area that reaches past the last column of the `u16` plane is left out:
/// there the column position saturates and characters pile up in the last
/// column.)
pub proof fn lemma_paint_layout(area: Rect, ansi: Seq<char>, default: Style)
    requires
        area.x + area.width <= u16::MAX,
    ensures
        cells_inside(paint_spec(area, ansi, default), area),
        cells_in_order(paint_spec(area, ansi, default)),
{
    if area.width != 0 && area.height != 0 {
        let fitted = fit_spec(parse_spec(ansi, default), area.height as int, area.width as int);
        crate::ansi_fit::lemma_fit_fills_card(
            parse_spec(ansi, default),
            area.height as int,
            area.width as int,
        );
        lemma_rows_paint_layout(fitted, 0, area);
    }
}

proof fn lemma_row_paint_styles(row: Seq<Cell>, x: int, right: int, y: u16, style: Style)
    requires
        forall|k: int| 0 <= k < row.len() ==> (#[trigger] row[k]).1 == style,
    ensures
        forall|k: int|
            0 <= k < row_paint(row, x, right, y).len() ==> (#[trigger] row_paint(row, x, right, y)[k]).style
                == style,
    decreases row.len(),
{
    if row.len() > 0 {
        let rest = row.drop_first();
        assert forall|k: int| 0 <= k < rest.len() implies (#[trigger] rest[k]).1 == style by {
            assert(rest[k] == row[k + 1]);
        }
        let w = display_width(row[0].0);
        let nx = sat_add_u16(x, w as int);
        lemma_row_paint_styles(rest, x, right, y, style);
        lemma_row_paint_styles(rest, nx, right, y, style);
        if w != 0 && nx <= right {
            let all = row_paint(row, x, right, y);
            let tail = row_paint(rest, nx, right, y);
            assert(all == seq![paint_cell(x, y, row[0])] + tail);
            assert(row[0].1 == style);
            assert forall|k: int| 0 <= k < all.len() implies (#[trigger] all[k]).style == style by {
                if k > 0 {
                    assert(all[k] == tail[k - 1]);
                }
            }
        }
    }
}

proof fn lemma_rows_paint_styles(rows: Seq<Seq<Cell>>, k: int, area: Rect, style: Style)
    requires
        all_styled(rows, style),
        0 <= k,
    ensures
        forall|i: int|
            0 <= i < rows_paint(rows, k, area).len() ==> (#[trigger] rows_paint(rows, k, area)[i]).style
                == style,
    decreases rows.len() - k,
{
    if k < rows.len() {
        lemma_rows_paint_styles(rows, k + 1, area, style);
        let y = sat_add_u16(area.y as int, (k as u16) as int);
        if y < sat_add_u16(area.y as int, area.height as int) {
            let right = sat_add_u16(area.x as int, area.width as int);
            assert forall|j: int| 0 <= j < rows[k].len() implies (#[trigger] rows[k][j]).1 == style by {}
            lemma_row_paint_styles(rows[k], area.x as int, right, y as u16, style);
            let first = row_paint(rows[k], area.x as int, right, y as u16);
            let rest = rows_paint(rows, k + 1, area);
            let all = rows_paint(rows, k, area);
            assert(all == first + rest);
            assert forall|i: int| 0 <= i < all.len() implies (#[trigger] all[i]).style == style by {
                if i < first.len() {
                    assert(all[i] == first[i]);
                } else {
                    assert(all[i] == rest[i - first.len()]);
                }
            }
        }
    }
}

/// Painting draws the characters in the styles that parsing gave them: when
/// every character of the parsed dump is in `style`, so is every painted
/// cell.
pub proof fn lemma_paint_keeps_parsed_styles(area: Rect, ansi: Seq<char>, default: Style, style: Style)
    requires
        all_styled(parse_spec(ansi, default), style),
    ensures
        forall|i: int|
            0 <= i < paint_spec(area, ansi, default).len() ==> (#[trigger] paint_spec(
                area,
                ansi,
                default,
            )[i]).style == style,
{
    if area.width != 0 && area.height != 0 {
        let fitted = fit_spec(parse_spec(ansi, default), area.height as int, area.width as int);
        lemma_fit_keeps_styles(parse_spec(ansi, default), area.height as int, area.width as int, style);
        lemma_rows_paint_styles(fitted, 0, area, style);
    }
}

/// Plain text (printable characters and line feeds) is painted in the
/// caller's default style, cell by cell.
pub proof fn lemma_plain_text_painted_in_default_style(area: Rect, ansi: Seq<char>, default: Style)
    requires
        is_plain_text(ansi),
    ensures
        forall|i: int|
            0 <= i < paint_spec(area, ansi, default).len() ==> (#[trigger] paint_spec(
                area,
                ansi,
                default,
            )[i]).style == default,
{
    lemma_plain_text_rows(ansi, default);
    let rows = styled_lines(ansi, default);
    assert forall|i: int, k: int| 0 <= i < rows.len() && 0 <= k < rows[i].len() implies (
    #[trigger] rows[i][k]).1 == default by {
        let line = split_lines(ansi)[i];
        assert(rows[i] == styled(line, default));
        assert(rows[i][k] == (line[k], default));
    }
    lemma_paint_keeps_parsed_styles(area, ansi, default, default);
}

} // verus!
