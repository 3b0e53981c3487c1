//! Fitting parsed screen rows into a card: the bottom of the screen stays in
//! view, common indentation goes, and long rows are cut at the card's edge.

use vstd::prelude::*;
use crate::ansi_parse::{Cell, rows_view};
use crate::style::Style;
use crate::text::{cell_width, char_is_whitespace, display_width, is_white_space};

verus! {

/// Every character of `row` is white space.
pub open spec fn row_blank(row: Seq<Cell>) -> bool {
    forall|k: int| 0 <= k < row.len() ==> is_white_space(#[trigger] row[k].0)
}

/// Columns taken by the white space that starts `row`.
pub open spec fn row_indent(row: Seq<Cell>) -> nat
    decreases row.len(),
{
    if row.len() == 0 || !is_white_space(row[0].0) {
        0
    } else {
        display_width(row[0].0) + row_indent(row.drop_first())
    }
}

/// The smallest indentation of the rows that are not blank, if any.
pub open spec fn min_indent(rows: Seq<Seq<Cell>>) -> Option<nat>
    decreases rows.len(),
{
    if rows.len() == 0 {
        None
    } else {
        let prev = min_indent(rows.drop_last());
        let last = rows.last();
        if row_blank(last) {
            prev
        } else {
            match prev {
                Some(m) => Some(if row_indent(last) < m {
                    row_indent(last)
                } else {
                    m
                }),
                None => Some(row_indent(last)),
            }
        }
    }
}

/// Indentation that all non-blank rows share (0 when every row is blank).
pub open spec fn leading_pad_spec(rows: Seq<Seq<Cell>>) -> nat {
    match min_indent(rows) {
        Some(m) => m,
        None => 0,
    }
}

/// How many characters at the start of `row` cover its first `cols` columns.
pub open spec fn skip_count(row: Seq<Cell>, cols: int) -> nat
    decreases row.len(),
{
    if row.len() == 0 || cols <= 0 {
        0
    } else {
        1 + skip_count(row.drop_first(), cols - display_width(row[0].0))
    }
}

/// `row` without the characters that cover its first `cols` columns.
pub open spec fn skip_cols_spec(row: Seq<Cell>, cols: int) -> Seq<Cell> {
    row.skip(skip_count(row, cols) as int)
}

/// How many characters at the start of `row` fit in `cols` columns.
pub open spec fn take_count(row: Seq<Cell>, cols: int) -> nat
    decreases row.len(),
{
    if row.len() == 0 || display_width(row[0].0) > cols {
        0
    } else {
        1 + take_count(row.drop_first(), cols - display_width(row[0].0))
    }
}

/// The longest start of `row` that fits in `cols` columns.
pub open spec fn take_cols_spec(row: Seq<Cell>, cols: int) -> Seq<Cell> {
    row.take(take_count(row, cols) as int)
}

/// Columns that the characters of `row` take.
pub open spec fn row_width(row: Seq<Cell>) -> nat
    decreases row.len(),
{
    if row.len() == 0 {
        0
    } else {
        display_width(row[0].0) + row_width(row.drop_first())
    }
}

/// Skipping never goes past the end of the row.
pub proof fn lemma_skip_count_bound(row: Seq<Cell>, cols: int)
    ensures
        skip_count(row, cols) <= row.len(),
    decreases row.len(),
{
    if row.len() > 0 && cols > 0 {
        lemma_skip_count_bound(row.drop_first(), cols - display_width(row[0].0));
    }
}

/// What is taken lies within the row and fits in the columns given.
pub proof fn lemma_take_count_bound(row: Seq<Cell>, cols: int)
    ensures
        take_count(row, cols) <= row.len(),
        cols >= 0 ==> row_width(row.take(take_count(row, cols) as int)) <= cols,
    decreases row.len(),
{
    if row.len() > 0 && display_width(row[0].0) <= cols {
        let rest = row.drop_first();
        lemma_take_count_bound(rest, cols - display_width(row[0].0));
        let k = take_count(row, cols) as int;
        assert(row.take(k).drop_first() =~= rest.take(k - 1));
    } else {
        assert(row.take(0) =~= Seq::<Cell>::empty());
    }
}

/// Whether every character of `row` is white space.
pub fn row_is_blank(row: &[Cell]) -> (r: bool)
    ensures
        r == row_blank(row@),
{
    let mut i: usize = 0;
    while i < row.len()
        invariant
            i <= row@.len(),
            forall|k: int| 0 <= k < i ==> is_white_space(#[trigger] row@[k].0),
        decreases row@.len() - i,
    {
        if !char_is_whitespace(row[i].0) {
            return false;
        }
        i = i + 1;
    }
    true
}

/// `row` without the characters that cover its first `cols` columns.
pub fn skip_display_cols(row: &[Cell], cols: usize) -> (r: Vec<Cell>)
    requires
        // a `Vec` of cells, each wider than four bytes
        row@.len() <= usize::MAX / 4,
    ensures
        r@ == skip_cols_spec(row@, cols as int),
{
    let mut used: usize = 0;
    let mut index: usize = 0;
    assert(row@.skip(0) =~= row@);
    while index < row.len() && used < cols
        invariant
            index <= row@.len() <= usize::MAX / 4,
            used <= 3 * index,
            skip_count(row@, cols as int) == index + skip_count(
                row@.skip(index as int),
                cols - used,
            ),
        decreases row@.len() - index,
    {
        proof {
            let t = row@.skip(index as int);
            assert(t.drop_first() =~= row@.skip(index + 1));
            assert(t[0] == row@[index as int]);
        }
        let width = cell_width(row[index].0);
        used = used + width;
        index = index + 1;
    }
    proof {
        let t = row@.skip(index as int);
        assert(skip_count(t, cols - used) == 0);
        lemma_skip_count_bound(row@, cols as int);
    }
    let start = if index < row.len() {
        index
    } else {
        row.len()
    };
    vstd::slice::slice_to_vec(vstd::slice::slice_subrange(row, start, row.len()))
}

/// The longest start of `row` that fits in `cols` columns.
pub fn take_display_cols(row: &[Cell], cols: usize) -> (r: Vec<Cell>)
    ensures
        r@ == take_cols_spec(row@, cols as int),
        row_width(r@) <= cols,
{
    let mut out: Vec<Cell> = Vec::new();
    let mut used: usize = 0;
    let mut i: usize = 0;
    assert(row@.skip(0) =~= row@);
    assert(row@.take(0) =~= Seq::<Cell>::empty());
    while i < row.len()
        invariant_except_break
            i <= row@.len(),
            used <= cols,
            out@ == row@.take(i as int),
            take_count(row@, cols as int) == i + take_count(row@.skip(i as int), cols - used),
        ensures
            out@ == take_cols_spec(row@, cols as int),
        decreases row@.len() - i,
    {
        let (ch, style) = row[i];
        let width = cell_width(ch);
        proof {
            let t = row@.skip(i as int);
            assert(t.drop_first() =~= row@.skip(i + 1));
            assert(t[0] == row@[i as int]);
        }
        if width > cols - used {
            proof {
                assert(out@ =~= row@.take(take_count(row@, cols as int) as int));
            }
            break;
        }
        out.push((ch, style));
        used = used + width;
        i = i + 1;
        proof {
            assert(out@ =~= row@.take(i as int));
        }
    }
    proof {
        lemma_take_count_bound(row@, cols as int);
    }
    out
}

/// A `Vec` of cells, each wider than four bytes, holds fewer than
/// `usize::MAX / 4` of them.
pub open spec fn rows_fit_memory(rows: Seq<Seq<Cell>>) -> bool {
    forall|i: int| 0 <= i < rows.len() ==> #[trigger] rows[i].len() <= usize::MAX / 4
}

/// The width of the leading white space of `row`, or `usize::MAX` when the
/// whole row is white space.
fn row_pad(row: &[Cell]) -> (r: usize)
    requires
        row@.len() <= usize::MAX / 4,
    ensures
        !row_blank(row@) ==> r == row_indent(row@) && r <= 3 * row@.len(),
        row_blank(row@) ==> r == usize::MAX,
{
    let mut pad: usize = 0;
    let mut i: usize = 0;
    assert(row@.skip(0) =~= row@);
    while i < row.len()
        invariant
            i <= row@.len() <= usize::MAX / 4,
            pad <= 3 * i,
            forall|k: int| 0 <= k < i ==> is_white_space(#[trigger] row@[k].0),
            row_indent(row@) == pad + row_indent(row@.skip(i as int)),
        decreases row@.len() - i,
    {
        let ch = row[i].0;
        proof {
            let t = row@.skip(i as int);
            assert(t.drop_first() =~= row@.skip(i + 1));
            assert(t[0] == row@[i as int]);
        }
        if !char_is_whitespace(ch) {
            return pad;
        }
        pad = pad + cell_width(ch);
        i = i + 1;
    }
    usize::MAX
}

pub open spec fn opt_nat(o: Option<usize>) -> Option<nat> {
    match o {
        Some(v) => Some(v as nat),
        None => None,
    }
}

/// The indentation that all non-blank rows share.
pub fn leading_pad(rows: &[Vec<Cell>]) -> (r: usize)
    requires
        rows_fit_memory(rows_view(rows@)),
    ensures
        r == leading_pad_spec(rows_view(rows@)),
        r <= usize::MAX / 4 * 3,
{
    let mut best: Option<usize> = None;
    let mut i: usize = 0;
    assert(rows_view(rows@.take(0)) =~= Seq::<Seq<Cell>>::empty());
    while i < rows.len()
        invariant
            i <= rows@.len(),
            rows_fit_memory(rows_view(rows@)),
            opt_nat(best) == min_indent(rows_view(rows@.take(i as int))),
            best matches Some(b) ==> b <= usize::MAX / 4 * 3,
        decreases rows@.len() - i,
    {
        let row = rows[i].as_slice();
        proof {
            assert(rows_view(rows@)[i as int] == row@);
            assert(rows_view(rows@.take(i + 1)).drop_last() =~= rows_view(rows@.take(i as int)));
            assert(rows_view(rows@.take(i + 1)).last() == row@);
        }
        if !row_is_blank(row) {
            let pad = row_pad(row);
            best = match best {
                Some(b) => Some(if pad < b {
                    pad
                } else {
                    b
                }),
                None => Some(pad),
            };
        }
        i = i + 1;
    }
    assert(rows@.take(rows@.len() as int) =~= rows@);
    match best {
        Some(b) => if b != usize::MAX {
            b
        } else {
            0
        },
        None => 0,
    }
}

/// `rows` shown in `height` lines with the last row at the bottom: empty
/// lines above when there are fewer rows, only the last `height` rows when
/// there are more.
pub open spec fn pin_bottom_spec(rows: Seq<Seq<Cell>>, height: int) -> Seq<Seq<Cell>> {
    if rows.len() >= height {
        rows.skip(rows.len() - height)
    } else {
        Seq::new((height - rows.len()) as nat, |k: int| Seq::<Cell>::empty()) + rows
    }
}

/// Shows `rows` in `height` lines, keeping the last row at the bottom.
pub fn pin_bottom(rows: Vec<Vec<Cell>>, height: usize) -> (r: Vec<Vec<Cell>>)
    ensures
        rows_view(r@) == pin_bottom_spec(rows_view(rows@), height as int),
{
    let ghost orig = rows@;
    let mut rows = rows;
    let n = rows.len();
    if n >= height {
        let tail = rows.split_off(n - height);
        proof {
            assert(rows_view(tail@) =~= rows_view(orig).skip(n - height));
        }
        return tail;
    }
    let missing = height - n;
    let mut out: Vec<Vec<Cell>> = Vec::new();
    let mut k: usize = 0;
    while k < missing
        invariant
            k <= missing,
            rows_view(out@) =~= Seq::new(k as nat, |j: int| Seq::<Cell>::empty()),
        decreases missing - k,
    {
        let ghost before = out@;
        out.push(Vec::new());
        proof {
            assert(rows_view(out@) =~= rows_view(before).push(Seq::<Cell>::empty()));
        }
        k = k + 1;
    }
    let ghost pad_rows = out@;
    out.append(&mut rows);
    proof {
        assert(rows_view(out@) =~= rows_view(pad_rows) + rows_view(orig));
    }
    out
}

/// What a card of `height` lines and `width` columns shows of `rows`:
/// trailing empty rows go, the indentation shared by all non-blank rows
/// goes, the last `height` rows are kept at the bottom, and each row is cut
/// to `width` columns (when `width` is not 0).
pub open spec fn fit_spec(rows: Seq<Seq<Cell>>, height: int, width: int) -> Seq<Seq<Cell>> {
    if height == 0 {
        Seq::empty()
    } else {
        let trimmed = drop_trailing_empty(rows);
        let pad = leading_pad_spec(trimmed);
        let unpadded = if pad > 0 {
            trimmed.map_values(|row: Seq<Cell>| skip_cols_spec(row, pad as int))
        } else {
            trimmed
        };
        let fitted = if unpadded.len() <= height {
            pin_bottom_spec(unpadded, height)
        } else {
            unpadded.skip(unpadded.len() - height)
        };
        if width > 0 {
            fitted.map_values(|row: Seq<Cell>| take_cols_spec(row, width))
        } else {
            fitted
        }
    }
}

/// `rows` without the empty rows at its end.
pub open spec fn drop_trailing_empty(rows: Seq<Seq<Cell>>) -> Seq<Seq<Cell>>
    decreases rows.len(),
{
    if rows.len() > 0 && rows.last().len() == 0 {
        drop_trailing_empty(rows.drop_last())
    } else {
        rows
    }
}

/// Fits parsed screen rows into a card of `height` lines and `width` columns.
pub fn fit_rows(rows: Vec<Vec<Cell>>, height: usize, width: usize) -> (r: Vec<Vec<Cell>>)
    requires
        rows_fit_memory(rows_view(rows@)),
    ensures
        rows_view(r@) == fit_spec(rows_view(rows@), height as int, width as int),
{
    if height == 0 {
        let empty: Vec<Vec<Cell>> = Vec::new();
        assert(rows_view(empty@) =~= Seq::<Seq<Cell>>::empty());
        return empty;
    }
    let ghost orig = rows_view(rows@);
    let mut rows = rows;
    while rows.len() > 0 && rows[rows.len() - 1].len() == 0
        invariant
            drop_trailing_empty(orig) == drop_trailing_empty(rows_view(rows@)),
            rows_fit_memory(rows_view(rows@)),
        decreases rows@.len(),
    {
        let ghost before = rows@;
        rows.pop();
        proof {
            assert(rows_view(before).drop_last() =~= rows_view(rows@));
            assert(rows_view(before).last() == before.last()@);
        }
    }
    let ghost trimmed = rows_view(rows@);
    assert(drop_trailing_empty(trimmed) == trimmed);
    let pad = leading_pad(rows.as_slice());
    if pad > 0 {
        let mut unpadded: Vec<Vec<Cell>> = Vec::new();
        let mut i: usize = 0;
        while i < rows.len()
            invariant
                i <= rows@.len(),
                trimmed == rows_view(rows@),
                rows_fit_memory(trimmed),
                pad <= usize::MAX / 4 * 3,
                rows_view(unpadded@) =~= trimmed.take(i as int).map_values(
                    |row: Seq<Cell>| skip_cols_spec(row, pad as int),
                ),
                rows_fit_memory(rows_view(unpadded@)),
            decreases rows@.len() - i,
        {
            let ghost before = unpadded@;
            proof {
                assert(trimmed[i as int] == rows@[i as int]@);
            }
            let row = skip_display_cols(rows[i].as_slice(), pad);
            proof {
                lemma_skip_count_bound(rows@[i as int]@, pad as int);
            }
            unpadded.push(row);
            proof {
                assert(rows_view(unpadded@) =~= rows_view(before).push(row@));
                assert(trimmed.take(i + 1).map_values(|row: Seq<Cell>| skip_cols_spec(row, pad as int))
                    =~= trimmed.take(i as int).map_values(
                    |row: Seq<Cell>| skip_cols_spec(row, pad as int),
                ).push(skip_cols_spec(trimmed[i as int], pad as int)));
                assert forall|j: int| 0 <= j < rows_view(unpadded@).len() implies #[trigger] rows_view(
                    unpadded@,
                )[j].len() <= usize::MAX / 4 by {
                    if j < i {
                        assert(rows_view(unpadded@)[j] == rows_view(before)[j]);
                    } else {
                        assert(rows_view(unpadded@)[j] == row@);
                        assert(trimmed[i as int].len() <= usize::MAX / 4);
                    }
                }
            }
            i = i + 1;
        }
        assert(trimmed.take(rows@.len() as int) =~= trimmed);
        rows = unpadded;
    }
    let ghost unpadded_view = rows_view(rows@);
    let mut fitted = if rows.len() <= height {
        pin_bottom(rows, height)
    } else {
        let n = rows.len();
        let tail = rows.split_off(n - height);
        proof {
            assert(rows_view(tail@) =~= unpadded_view.skip(n - height));
        }
        tail
    };
    if width > 0 {
        let ghost fitted_view = rows_view(fitted@);
        let mut out: Vec<Vec<Cell>> = Vec::new();
        let mut i: usize = 0;
        while i < fitted.len()
            invariant
                i <= fitted@.len(),
                fitted_view == rows_view(fitted@),
                rows_view(out@) =~= fitted_view.take(i as int).map_values(
                    |row: Seq<Cell>| take_cols_spec(row, width as int),
                ),
            decreases fitted@.len() - i,
        {
            let ghost before = out@;
            let row = take_display_cols(fitted[i].as_slice(), width);
            proof {
                assert(fitted_view[i as int] == fitted@[i as int]@);
            }
            out.push(row);
            proof {
                assert(rows_view(out@) =~= rows_view(before).push(row@));
                assert(fitted_view.take(i + 1).map_values(|row: Seq<Cell>| take_cols_spec(row, width as int))
                    =~= fitted_view.take(i as int).map_values(
                    |row: Seq<Cell>| take_cols_spec(row, width as int),
                ).push(take_cols_spec(fitted_view[i as int], width as int)));
            }
            i = i + 1;
        }
        assert(fitted_view.take(fitted@.len() as int) =~= fitted_view);
        fitted = out;
    }
    fitted
}

/// `drop_trailing_empty(rows)` is `rows` up to and including its last
/// non-empty row: a prefix, ending in a non-empty row, after which every row
/// is empty.
pub proof fn lemma_drop_trailing_empty(rows: Seq<Seq<Cell>>)
    ensures
        drop_trailing_empty(rows) == rows.take(drop_trailing_empty(rows).len() as int),
        drop_trailing_empty(rows).len() <= rows.len(),
        drop_trailing_empty(rows).len() > 0 ==> drop_trailing_empty(rows).last().len() > 0,
        forall|k: int|
            drop_trailing_empty(rows).len() <= k < rows.len() ==> #[trigger] rows[k].len() == 0,
    decreases rows.len(),
{
    if rows.len() > 0 && rows.last().len() == 0 {
        let prev = rows.drop_last();
        lemma_drop_trailing_empty(prev);
        let t = drop_trailing_empty(prev);
        assert(rows.take(t.len() as int) =~= prev.take(t.len() as int));
        assert forall|k: int| t.len() <= k < rows.len() implies #[trigger] rows[k].len() == 0 by {
            if k < prev.len() {
                assert(rows[k] == prev[k]);
            }
        }
    } else {
        assert(rows.take(rows.len() as int) =~= rows);
    }
}

/// A card of `height` lines always gets exactly `height` rows, and when it
/// has a width, no row is wider than the card.
pub proof fn lemma_fit_fills_card(rows: Seq<Seq<Cell>>, height: int, width: int)
    requires
        height > 0,
        width >= 0,
    ensures
        fit_spec(rows, height, width).len() == height,
        width > 0 ==> forall|k: int|
            0 <= k < height ==> row_width(#[trigger] fit_spec(rows, height, width)[k]) <= width,
{
    let trimmed = drop_trailing_empty(rows);
    let pad = leading_pad_spec(trimmed);
    let unpadded = if pad > 0 {
        trimmed.map_values(|row: Seq<Cell>| skip_cols_spec(row, pad as int))
    } else {
        trimmed
    };
    let fitted = if unpadded.len() <= height {
        pin_bottom_spec(unpadded, height)
    } else {
        unpadded.skip(unpadded.len() - height)
    };
    assert(fitted.len() == height);
    if width > 0 {
        let out = fitted.map_values(|row: Seq<Cell>| take_cols_spec(row, width));
        assert(out == fit_spec(rows, height, width));
        assert forall|k: int| 0 <= k < height implies row_width(#[trigger] out[k]) <= width by {
            lemma_take_count_bound(fitted[k], width);
        }
    }
}

/// The bottom line of a card shows the last non-empty row of the screen,
/// without the shared indentation and cut to the card's width.
pub proof fn lemma_fit_keeps_bottom(rows: Seq<Seq<Cell>>, height: int, width: int)
    requires
        height > 0,
        width > 0,
        drop_trailing_empty(rows).len() > 0,
    ensures
        fit_spec(rows, height, width)[height - 1] == take_cols_spec(
            skip_cols_spec(
                drop_trailing_empty(rows).last(),
                leading_pad_spec(drop_trailing_empty(rows)) as int,
            ),
            width,
        ),
{
    let trimmed = drop_trailing_empty(rows);
    let pad = leading_pad_spec(trimmed);
    let unpadded = if pad > 0 {
        trimmed.map_values(|row: Seq<Cell>| skip_cols_spec(row, pad as int))
    } else {
        trimmed
    };
    if pad == 0 {
        assert(skip_count(trimmed.last(), 0) == 0);
        assert(skip_cols_spec(trimmed.last(), 0) =~= trimmed.last());
    }
    assert(unpadded.last() == skip_cols_spec(trimmed.last(), pad as int));
    let fitted = if unpadded.len() <= height {
        pin_bottom_spec(unpadded, height)
    } else {
        unpadded.skip(unpadded.len() - height)
    };
    assert(fitted[height - 1] == unpadded.last());
}

/// The indentation that fitting strips is the smallest one among the rows
/// that are not blank: no larger than any of them and equal to one of them
/// (0 when every row is blank). In particular a non-blank row that starts
/// at the left edge means nothing is stripped.
pub proof fn lemma_leading_pad_is_shared_indent(rows: Seq<Seq<Cell>>)
    ensures
        forall|i: int|
            0 <= i < rows.len() && !row_blank(#[trigger] rows[i]) ==> leading_pad_spec(rows)
                <= row_indent(rows[i]),
        (exists|i: int| 0 <= i < rows.len() && !row_blank(#[trigger] rows[i])) ==> exists|i: int|
            0 <= i < rows.len() && !row_blank(#[trigger] rows[i]) && row_indent(rows[i])
                == leading_pad_spec(rows),
        (forall|i: int| 0 <= i < rows.len() ==> row_blank(#[trigger] rows[i])) ==> leading_pad_spec(
            rows,
        ) == 0,
    decreases rows.len(),
{
    if rows.len() > 0 {
        let prev = rows.drop_last();
        lemma_leading_pad_is_shared_indent(prev);
        let last = rows.last();
        let n = rows.len() - 1;
        assert(last == rows[n]);
        assert forall|i: int| 0 <= i < prev.len() implies #[trigger] prev[i] == rows[i] by {}
        assert forall|i: int|
            0 <= i < rows.len() && !row_blank(#[trigger] rows[i]) implies leading_pad_spec(rows)
                <= row_indent(rows[i]) by {
            if i < n {
                assert(prev[i] == rows[i]);
                assert(!row_blank(prev[i]));
                if min_indent(prev) is None {
                    lemma_min_indent_none(prev);
                }
            }
        }
        if !row_blank(last) {
            if exists|i: int| 0 <= i < prev.len() && !row_blank(#[trigger] prev[i]) {
                let i0 = choose|i: int|
                    0 <= i < prev.len() && !row_blank(#[trigger] prev[i]) && row_indent(prev[i])
                        == leading_pad_spec(prev);
                assert(min_indent(prev) == Some(leading_pad_spec(prev))) by {
                    assert(!row_blank(prev[i0]));
                    if min_indent(prev) is None {
                        assert(leading_pad_spec(prev) == 0);
                        lemma_min_indent_none(prev);
                    }
                }
                if row_indent(last) < leading_pad_spec(prev) {
                    assert(!row_blank(rows[n]) && row_indent(rows[n]) == leading_pad_spec(rows));
                } else {
                    assert(!row_blank(rows[i0]) && row_indent(rows[i0]) == leading_pad_spec(rows));
                }
            } else {
                lemma_min_indent_none_back(prev);
                assert(!row_blank(rows[n]) && row_indent(rows[n]) == leading_pad_spec(rows));
            }
        } else {
            if exists|i: int| 0 <= i < rows.len() && !row_blank(#[trigger] rows[i]) {
                let i1 = choose|i: int| 0 <= i < rows.len() && !row_blank(#[trigger] rows[i]);
                assert(i1 < n);
                assert(!row_blank(prev[i1]));
                let i0 = choose|i: int|
                    0 <= i < prev.len() && !row_blank(#[trigger] prev[i]) && row_indent(prev[i])
                        == leading_pad_spec(prev);
                assert(!row_blank(rows[i0]) && row_indent(rows[i0]) == leading_pad_spec(rows));
            }
        }
    }
}

proof fn lemma_min_indent_none(rows: Seq<Seq<Cell>>)
    requires
        min_indent(rows) is None,
    ensures
        forall|i: int| 0 <= i < rows.len() ==> row_blank(#[trigger] rows[i]),
    decreases rows.len(),
{
    if rows.len() > 0 {
        let prev = rows.drop_last();
        lemma_min_indent_none(prev);
        assert forall|i: int| 0 <= i < rows.len() implies row_blank(#[trigger] rows[i]) by {
            if i < prev.len() {
                assert(prev[i] == rows[i]);
            }
        }
    }
}

proof fn lemma_min_indent_none_back(rows: Seq<Seq<Cell>>)
    requires
        forall|i: int| 0 <= i < rows.len() ==> row_blank(#[trigger] rows[i]),
    ensures
        min_indent(rows) is None,
    decreases rows.len(),
{
    if rows.len() > 0 {
        let prev = rows.drop_last();
        assert forall|i: int| 0 <= i < prev.len() implies row_blank(#[trigger] prev[i]) by {
            assert(prev[i] == rows[i]);
        }
        lemma_min_indent_none_back(prev);
        assert(row_blank(rows[rows.len() - 1]));
    }
}

proof fn lemma_skip_within_indent(row: Seq<Cell>, cols: int)
    requires
        cols <= row_indent(row),
    ensures
        forall|k: int| 0 <= k < skip_count(row, cols) ==> is_white_space(#[trigger] row[k].0),
    decreases row.len(),
{
    if row.len() > 0 && cols > 0 {
        assert(is_white_space(row[0].0));
        let rest = row.drop_first();
        lemma_skip_within_indent(rest, cols - display_width(row[0].0));
        lemma_skip_count_bound(row, cols);
        assert forall|k: int| 0 <= k < skip_count(row, cols) implies is_white_space(#[trigger] row[k].0) by {
            if k > 0 {
                assert(row[k] == rest[k - 1]);
            }
        }
    }
}

/// Stripping the shared indentation removes only white space: from every
/// row, the characters that the pad skips are all white space.
pub proof fn lemma_unpad_removes_only_white_space(rows: Seq<Seq<Cell>>)
    ensures
        forall|i: int, k: int|
            0 <= i < rows.len() && 0 <= k < skip_count(rows[i], leading_pad_spec(rows) as int)
                ==> is_white_space(#[trigger] rows[i][k].0),
{
    lemma_leading_pad_is_shared_indent(rows);
    assert forall|i: int, k: int|
        0 <= i < rows.len() && 0 <= k < skip_count(rows[i], leading_pad_spec(rows) as int)
            implies is_white_space(#[trigger] rows[i][k].0) by {
        if row_blank(rows[i]) {
            lemma_skip_count_bound(rows[i], leading_pad_spec(rows) as int);
        } else {
            lemma_skip_within_indent(rows[i], leading_pad_spec(rows) as int);
        }
    }
}

/// Every character of `rows` is in `style`.
pub open spec fn all_styled(rows: Seq<Seq<Cell>>, style: Style) -> bool {
    forall|i: int, k: int| 0 <= i < rows.len() && 0 <= k < rows[i].len() ==> (#[trigger] rows[i][k]).1 == style
}

/// Fitting moves and cuts rows but never restyles a character: when every
/// character of `rows` is in `style`, so is every character of the card.
pub proof fn lemma_fit_keeps_styles(rows: Seq<Seq<Cell>>, height: int, width: int, style: Style)
    requires
        height >= 0,
        all_styled(rows, style),
    ensures
        all_styled(fit_spec(rows, height, width), style),
{
    if height != 0 {
        let trimmed = drop_trailing_empty(rows);
        lemma_drop_trailing_empty(rows);
        assert forall|i: int, k: int| 0 <= i < trimmed.len() && 0 <= k < trimmed[i].len() implies (
        #[trigger] trimmed[i][k]).1 == style by {
            assert(trimmed[i] == rows[i]);
        }
        let pad = leading_pad_spec(trimmed);
        let unpadded = if pad > 0 {
            trimmed.map_values(|row: Seq<Cell>| skip_cols_spec(row, pad as int))
        } else {
            trimmed
        };
        assert forall|i: int, k: int| 0 <= i < unpadded.len() && 0 <= k < unpadded[i].len() implies (
        #[trigger] unpadded[i][k]).1 == style by {
            if pad > 0 {
                lemma_skip_count_bound(trimmed[i], pad as int);
                let c = skip_count(trimmed[i], pad as int) as int;
                assert(unpadded[i] == trimmed[i].skip(c));
                assert(unpadded[i][k] == trimmed[i][k + c]);
            }
        }
        let fitted = if unpadded.len() <= height {
            pin_bottom_spec(unpadded, height)
        } else {
            unpadded.skip(unpadded.len() - height)
        };
        assert forall|i: int, k: int| 0 <= i < fitted.len() && 0 <= k < fitted[i].len() implies (
        #[trigger] fitted[i][k]).1 == style by {
            if unpadded.len() <= height {
                let m = height - unpadded.len();
                let pads = Seq::new(m as nat, |j: int| Seq::<Cell>::empty());
                assert(fitted == pads + unpadded);
                if i >= m {
                    assert(fitted[i] == unpadded[i - m]);
                } else {
                    assert(fitted[i] == pads[i]);
                }
            } else {
                assert(fitted[i] == unpadded[i + unpadded.len() - height]);
            }
        }
        if width > 0 {
            let out = fitted.map_values(|row: Seq<Cell>| take_cols_spec(row, width));
            assert forall|i: int, k: int| 0 <= i < out.len() && 0 <= k < out[i].len() implies (
            #[trigger] out[i][k]).1 == style by {
                lemma_take_count_bound(fitted[i], width);
                assert(out[i] == fitted[i].take(take_count(fitted[i], width) as int));
                assert(out[i][k] == fitted[i][k]);
            }
        }
    }
}

} // verus!
