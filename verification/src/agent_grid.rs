//! Client-only mosaic of detected agents: which agents get a card, how many
//! cards fit in the area, how they are paged and where each card is drawn.

use vstd::prelude::*;
use crate::rect::{Rect, rect_spec};

verus! {

/// At most this many cards are shown on one page.
pub const AGENT_GRID_PAGE_CAP: usize = 16;

/// Width of a full-size card.
pub const CARD_WIDTH: u16 = 36;

/// Height of a full-size card.
pub const CARD_HEIGHT: u16 = 10;

/// Blank columns and rows between two neighbouring cards.
pub const CELL_GAP: u16 = 1;

pub open spec fn min_int(a: int, b: int) -> int {
    if a <= b {
        a
    } else {
        b
    }
}

pub open spec fn max_int(a: int, b: int) -> int {
    if a >= b {
        a
    } else {
        b
    }
}

/// `v` clamped into `lo..=hi` (for `lo <= hi`).
pub open spec fn clamp_int(v: int, lo: int, hi: int) -> int {
    if v < lo {
        lo
    } else if v > hi {
        hi
    } else {
        v
    }
}

/// `a / b` rounded up, for `b > 0`.
pub open spec fn div_ceil_int(a: int, b: int) -> int {
    if a % b == 0 {
        a / b
    } else {
        a / b + 1
    }
}

/// `div_ceil_int(a, b)` is the least multiple count of `b` that covers `a`.
pub proof fn lemma_div_ceil(a: int, b: int)
    requires
        a >= 0,
        b > 0,
    ensures
        div_ceil_int(a, b) * b >= a,
        div_ceil_int(a, b) >= 0,
        a > 0 ==> (div_ceil_int(a, b) - 1) * b < a,
        a > 0 ==> div_ceil_int(a, b) >= 1,
        div_ceil_int(a, b) <= a,
{
    assert(a == (a / b) * b + a % b) by (nonlinear_arith)
        requires
            b > 0,
    ;
    assert(0 <= a % b < b);
    assert(a / b >= 0) by (nonlinear_arith)
        requires
            a >= 0,
            b > 0,
    ;
    assert((a / b) * b <= a);
    assert((a / b + 1) * b == (a / b) * b + b) by (nonlinear_arith);
    assert((a / b - 1) * b == (a / b) * b - b) by (nonlinear_arith);
    assert(a / b <= a) by (nonlinear_arith)
        requires
            a >= 0,
            b > 0,
    ;
    if a % b != 0 {
        assert(a / b < a) by (nonlinear_arith)
            requires
                a >= 0,
                b > 0,
                a % b != 0,
                a == (a / b) * b + a % b,
        ;
    }
}

/// Whether there is anything to lay out and room for at least one full card.
pub open spec fn grid_fits(count: usize, area: Rect) -> bool {
    count > 0 && area.width >= CARD_WIDTH && area.height >= CARD_HEIGHT
}

/// How many full cards fit side by side.
pub open spec fn max_cols_spec(area: Rect) -> int {
    max_int((area.width + CELL_GAP) / (CARD_WIDTH + CELL_GAP), 1)
}

/// How many full cards fit one above the other.
pub open spec fn max_rows_spec(area: Rect) -> int {
    max_int((area.height + CELL_GAP) / (CARD_HEIGHT + CELL_GAP), 1)
}

/// How many cards one page holds at most.
pub open spec fn page_cap_spec(area: Rect) -> int {
    clamp_int(max_cols_spec(area) * max_rows_spec(area), 1, AGENT_GRID_PAGE_CAP as int)
}

/// How many cards the first page shows.
pub open spec fn visible_spec(count: usize, area: Rect) -> int {
    min_int(count as int, page_cap_spec(area))
}

pub open spec fn cols_spec(count: usize, area: Rect) -> int {
    clamp_int(visible_spec(count, area), 1, max_cols_spec(area))
}

pub open spec fn rows_spec(count: usize, area: Rect) -> int {
    clamp_int(
        div_ceil_int(visible_spec(count, area), cols_spec(count, area)),
        1,
        max_rows_spec(area),
    )
}

pub open spec fn page_len_spec(count: usize, area: Rect) -> int {
    max_int(
        min_int(cols_spec(count, area) * rows_spec(count, area), page_cap_spec(area)),
        1,
    )
}

/// The grid never has an empty column or an empty row: it has at most one
/// column per agent, and all rows but the last are needed for the cards of
/// the first page.
pub proof fn lemma_grid_has_no_empty_slot(count: usize, area: Rect)
    requires
        grid_fits(count, area),
    ensures
        1 <= cols_spec(count, area) <= count,
        (rows_spec(count, area) - 1) * cols_spec(count, area) < min_int(
            count as int,
            page_cap_spec(area),
        ),
{
    let mc = max_cols_spec(area);
    let mr = max_rows_spec(area);
    let cap = page_cap_spec(area);
    let visible = visible_spec(count, area);
    let cols = cols_spec(count, area);
    let rows = rows_spec(count, area);
    assert(1 <= cap);
    assert(1 <= visible <= count);
    assert(1 <= cols <= visible);
    lemma_div_ceil(visible, cols);
    let needed = div_ceil_int(visible, cols);
    assert(1 <= rows <= needed);
    assert((rows - 1) * cols <= (needed - 1) * cols) by (nonlinear_arith)
        requires
            rows <= needed,
            cols >= 1,
    ;
}

/// The grid for `count` agents in `area`: `(cols, rows, page_len)`, or
/// `(0, 0, 0)` when there is nothing to show or no room for a full card.
///
/// Whenever a grid is laid out, it holds at least one cell, no more than
/// `AGENT_GRID_PAGE_CAP` cards per page, every card that the first page
/// shows has a cell, and the cells, at full card size and with their gaps,
/// fit in the area.
pub fn grid_geometry(count: usize, area: Rect) -> (r: (u16, u16, usize))
    requires
        grid_fits(count, area) ==> area.width < u16::MAX && area.height < u16::MAX,
    ensures
        !grid_fits(count, area) ==> r == (0u16, 0u16, 0usize),
        grid_fits(count, area) ==> {
            &&& r.0 == cols_spec(count, area)
            &&& r.1 == rows_spec(count, area)
            &&& r.2 == page_len_spec(count, area)
        },
        grid_fits(count, area) ==> {
            &&& 1 <= r.0 <= max_cols_spec(area)
            &&& 1 <= r.1 <= max_rows_spec(area)
            &&& 1 <= r.2 <= AGENT_GRID_PAGE_CAP
            &&& r.2 <= r.0 * r.1
            &&& r.2 >= min_int(count as int, page_cap_spec(area))
            &&& r.0 * CARD_WIDTH + (r.0 - 1) * CELL_GAP <= area.width
            &&& r.1 * CARD_HEIGHT + (r.1 - 1) * CELL_GAP <= area.height
        },
        // no column and no row of the first page is left empty
        grid_fits(count, area) ==> {
            &&& r.0 <= count
            &&& (r.1 - 1) * r.0 < count
            &&& (r.1 - 1) * r.0 < page_cap_spec(area)
        },
{
    if count == 0 || area.width < CARD_WIDTH || area.height < CARD_HEIGHT {
        return (0, 0, 0);
    }
    let max_cols = ((area.width + CELL_GAP) / (CARD_WIDTH + CELL_GAP)).max(1);
    let max_rows = ((area.height + CELL_GAP) / (CARD_HEIGHT + CELL_GAP)).max(1);
    proof {
        let w = area.width as int;
        let h = area.height as int;
        assert((w + 1) / 37 <= 1772 && (w + 1) / 37 >= 1 && 37 * ((w + 1) / 37) <= w + 1)
            by (nonlinear_arith)
            requires
                36 <= w < 65535,
        ;
        assert((h + 1) / 11 <= 5958 && (h + 1) / 11 >= 1 && 11 * ((h + 1) / 11) <= h + 1)
            by (nonlinear_arith)
            requires
                10 <= h < 65535,
        ;
    }
    assert(max_cols <= 1772 && max_rows <= 5958);
    assert((max_cols as usize) * (max_rows as usize) <= 1772 * 5958) by (nonlinear_arith)
        requires
            max_cols <= 1772,
            max_rows <= 5958,
    ;
    let page_cap = ((max_cols as usize) * (max_rows as usize)).max(1).min(AGENT_GRID_PAGE_CAP);
    let visible = count.min(page_cap);
    let cols = (visible as u16).max(1).min(max_cols);
    let rows_needed = visible / (cols as usize) + if visible % (cols as usize) != 0 {
        1
    } else {
        0
    };
    let rows = (rows_needed as u16).max(1).min(max_rows);
    assert((cols as usize) * (rows as usize) <= 16 * 5958) by (nonlinear_arith)
        requires
            cols <= 16,
            rows <= 5958,
    ;
    let page_len = ((cols as usize) * (rows as usize)).min(page_cap);
    proof {
        assert(max_cols == max_cols_spec(area));
        assert(max_rows == max_rows_spec(area));
        assert(37 * max_cols <= area.width + 1);
        assert(11 * max_rows <= area.height + 1);
        // every card of the first page gets a cell
        if rows < max_rows || rows as int == rows_needed {
            lemma_div_ceil(visible as int, cols as int);
            assert(rows_needed == div_ceil_int(visible as int, cols as int));
            assert((cols as int) * (rows_needed as int) == (rows_needed as int) * (cols as int))
                by (nonlinear_arith);
            assert(rows >= rows_needed);
            assert((cols as int) * (rows as int) >= (cols as int) * (rows_needed as int))
                by (nonlinear_arith)
                requires
                    rows >= rows_needed,
                    cols >= 1,
            ;
        } else {
            // rows is capped, so cols is as well (a single row would do otherwise)
            assert(cols == max_cols) by {
                if cols < max_cols {
                    assert(cols == visible);
                    assert(visible / (cols as usize) == 1 && visible % (cols as usize) == 0)
                        by (nonlinear_arith)
                        requires
                            visible == cols,
                            cols >= 1,
                    ;
                }
            }
            assert(max_cols * max_rows >= 1) by (nonlinear_arith)
                requires
                    max_cols >= 1,
                    max_rows >= 1,
            ;
            assert(max_cols * max_rows >= page_cap);
        }
        assert((cols as int) * (rows as int) >= visible);
        // no empty row: rows - 1 rows of cols cards hold fewer than visible
        lemma_div_ceil(visible as int, cols as int);
        assert(rows_needed == div_ceil_int(visible as int, cols as int));
        assert((rows as int - 1) * (cols as int) <= (rows_needed as int - 1) * (cols as int))
            by (nonlinear_arith)
            requires
                rows <= rows_needed,
                cols >= 1,
        ;
        assert((cols as int) * (rows as int) >= 1) by (nonlinear_arith)
            requires
                cols >= 1,
                rows >= 1,
        ;
    }
    (cols, rows, page_len.max(1))
}


/// Number of pages of `page_len` tiles that `total` tiles fill.
pub open spec fn page_count_spec(total: int, page_len: int) -> int {
    if total == 0 || page_len == 0 {
        0
    } else {
        div_ceil_int(total, page_len)
    }
}

/// `page` moved onto the last page when it lies past it.
pub open spec fn clamp_page_spec(page: int, total: int, page_len: int) -> int {
    let pages = page_count_spec(total, page_len);
    if pages == 0 {
        0
    } else {
        min_int(page, pages - 1)
    }
}

/// The range `(start, end)` of the tiles that page `page` shows.
pub open spec fn page_bounds(total: int, page: int, page_len: int) -> (int, int) {
    if page_len == 0 || total == 0 {
        (0, 0)
    } else {
        let start = clamp_page_spec(page, total, page_len) * page_len;
        (start, min_int(start + page_len, total))
    }
}

/// Number of pages needed for `total` tiles, `page_len` per page.
pub fn page_count(total: usize, page_len: usize) -> (r: usize)
    ensures
        r == page_count_spec(total as int, page_len as int),
        total > 0 && page_len > 0 ==> {
            &&& r >= 1
            &&& r * page_len >= total
            &&& (r - 1) * page_len < total
        },
{
    if total == 0 || page_len == 0 {
        0
    } else {
        proof {
            lemma_div_ceil(total as int, page_len as int);
        }
        total / page_len + if total % page_len != 0 {
            1
        } else {
            0
        }
    }
}

/// The page to show for a requested `page`: the page itself when it exists,
/// else the last page (or 0 when there are no pages).
pub fn clamp_page(page: usize, total: usize, page_len: usize) -> (r: usize)
    ensures
        r == clamp_page_spec(page as int, total as int, page_len as int),
        r <= page,
        page_count_spec(total as int, page_len as int) > 0 ==> r < page_count_spec(
            total as int,
            page_len as int,
        ),
{
    let pages = page_count(total, page_len);
    if pages == 0 {
        0
    } else {
        page.min(pages - 1)
    }
}

/// The first tile shown on page `page` lies within the tiles, and the page
/// ends no later than the tiles do.
pub proof fn lemma_page_bounds(total: int, page: int, page_len: int)
    requires
        total >= 0,
        page >= 0,
        page_len >= 0,
    ensures
        0 <= page_bounds(total, page, page_len).0 <= page_bounds(total, page, page_len).1 <= total,
        page_bounds(total, page, page_len).1 - page_bounds(total, page, page_len).0 <= page_len,
        total > 0 && page_len > 0 ==> page_bounds(total, page, page_len).0 < page_bounds(
            total,
            page,
            page_len,
        ).1,
{
    if page_len > 0 && total > 0 {
        lemma_div_ceil(total, page_len);
        let pages = page_count_spec(total, page_len);
        let p = clamp_page_spec(page, total, page_len);
        assert(0 <= p <= pages - 1);
        assert(p * page_len <= (pages - 1) * page_len) by (nonlinear_arith)
            requires
                p <= pages - 1,
                page_len > 0,
        ;
        assert(p * page_len >= 0) by (nonlinear_arith)
            requires
                p >= 0,
                page_len > 0,
        ;
    }
}

/// Paging covers the tiles one after the other: tile `i` is shown on page
/// `i / page_len`, at position `i % page_len`.
pub proof fn lemma_tile_on_its_page(total: int, page_len: int, i: int)
    requires
        page_len > 0,
        0 <= i < total,
    ensures
        clamp_page_spec(i / page_len, total, page_len) == i / page_len,
        page_bounds(total, i / page_len, page_len).0 <= i < page_bounds(
            total,
            i / page_len,
            page_len,
        ).1,
        i - page_bounds(total, i / page_len, page_len).0 == i % page_len,
{
    lemma_div_ceil(total, page_len);
    let pages = page_count_spec(total, page_len);
    let p = i / page_len;
    assert(i == p * page_len + i % page_len) by (nonlinear_arith)
        requires
            page_len > 0,
            p == i / page_len,
    ;
    assert(0 <= i % page_len < page_len);
    assert(p >= 0) by (nonlinear_arith)
        requires
            i >= 0,
            page_len > 0,
            p == i / page_len,
    ;
    assert(p <= pages - 1) by {
        if p > pages - 1 {
            assert(p * page_len >= pages * page_len) by (nonlinear_arith)
                requires
                    p >= pages,
                    page_len > 0,
            ;
        }
    }
}


/// Pages `0..k` of `tiles`, one after the other.
pub open spec fn pages_upto<T>(tiles: Seq<T>, k: int, page_len: int) -> Seq<T>
    decreases k,
{
    if k <= 0 {
        Seq::empty()
    } else {
        let b = page_bounds(tiles.len() as int, k - 1, page_len);
        pages_upto(tiles, k - 1, page_len) + tiles.subrange(b.0, b.1)
    }
}

proof fn lemma_pages_upto<T>(tiles: Seq<T>, k: int, page_len: int)
    requires
        page_len > 0,
        0 <= k <= page_count_spec(tiles.len() as int, page_len),
    ensures
        pages_upto(tiles, k, page_len) == tiles.take(min_int(k * page_len, tiles.len() as int)),
    decreases k,
{
    let total = tiles.len() as int;
    if k == 0 {
        assert(tiles.take(0) =~= Seq::<T>::empty());
    } else {
        lemma_pages_upto(tiles, k - 1, page_len);
        lemma_div_ceil(total, page_len);
        let pages = page_count_spec(total, page_len);
        let p = k - 1;
        assert(total > 0);
        assert(clamp_page_spec(p, total, page_len) == p);
        assert(p * page_len <= (pages - 1) * page_len) by (nonlinear_arith)
            requires
                p <= pages - 1,
                page_len > 0,
        ;
        assert(p * page_len >= 0) by (nonlinear_arith)
            requires
                p >= 0,
                page_len > 0,
        ;
        assert(p * page_len + page_len == k * page_len) by (nonlinear_arith)
            requires
                p == k - 1,
        ;
        let b = page_bounds(total, p, page_len);
        assert(b.0 == p * page_len);
        assert(b.1 == min_int(k * page_len, total));
        assert(tiles.take(p * page_len) + tiles.subrange(b.0, b.1) =~= tiles.take(b.1));
    }
}

/// The pages partition the tiles: pages `0`, `1`, ... up to the page count,
/// put one after the other, give back exactly the tiles, in order.
pub proof fn lemma_pages_partition<T>(tiles: Seq<T>, page_len: int)
    requires
        page_len > 0,
    ensures
        pages_upto(tiles, page_count_spec(tiles.len() as int, page_len), page_len) == tiles,
{
    let total = tiles.len() as int;
    let pages = page_count_spec(total, page_len);
    lemma_pages_upto(tiles, pages, page_len);
    if total > 0 {
        lemma_div_ceil(total, page_len);
        assert(pages * page_len >= total);
    }
    assert(tiles.take(total) =~= tiles);
}

/// What an agent is doing, as the server reports it.
#[derive(Clone, Copy, Debug, PartialEq, Eq, Structural)]
pub enum AgentStatus {
    Idle,
    Working,
    Blocked,
}

/// Which agents the grid shows.
#[derive(Clone, Copy, Debug, PartialEq, Eq, Structural)]
pub enum AgentGridFilter {
    /// Only agents that are working or waiting for an answer.
    Attention,
    /// Every detected agent.
    All,
}

pub open spec fn includes_spec(filter: AgentGridFilter, status: AgentStatus) -> bool {
    match filter {
        AgentGridFilter::Attention => status == AgentStatus::Working || status
            == AgentStatus::Blocked,
        AgentGridFilter::All => true,
    }
}

pub open spec fn label_spec(filter: AgentGridFilter) -> Seq<char> {
    match filter {
        AgentGridFilter::Attention => "working/blocked"@,
        AgentGridFilter::All => "all agents"@,
    }
}

impl AgentGridFilter {
    /// Whether an agent with `status` gets a card under this filter.
    pub fn includes(self, status: AgentStatus) -> (r: bool)
        ensures
            r == includes_spec(self, status),
    {
        match self {
            AgentGridFilter::Attention => match status {
                AgentStatus::Working | AgentStatus::Blocked => true,
                _ => false,
            },
            AgentGridFilter::All => true,
        }
    }

    /// The filter's name in the grid's header.
    pub fn label(self) -> (r: &'static str)
        ensures
            r@ == label_spec(self),
    {
        match self {
            AgentGridFilter::Attention => "working/blocked",
            AgentGridFilter::All => "all agents",
        }
    }
}

/// The pane of one agent on one endpoint.
#[derive(Clone, Debug)]
pub struct AgentGridTarget {
    pub endpoint_id: String,
    pub pane_id: String,
}

/// One card of the grid.
#[derive(Clone, Debug)]
pub struct AgentGridTile {
    pub target: AgentGridTarget,
    /// The endpoint's data is out of date.
    pub stale: bool,
    /// The focused pane of the active endpoint.
    pub current: bool,
}

/// One detected agent, in the order in which the agent panel lists them.
#[derive(Clone, Debug)]
pub struct AgentRow {
    pub endpoint_id: String,
    pub endpoint_stale: bool,
    pub pane_id: String,
    pub agent_status: AgentStatus,
    pub focused: bool,
}

/// Two targets name the same pane on the same endpoint.
pub open spec fn same_target(a: AgentGridTarget, b: AgentGridTarget) -> bool {
    a.endpoint_id@ == b.endpoint_id@ && a.pane_id@ == b.pane_id@
}

/// The card for `row` when `active` is the active endpoint.
pub open spec fn tile_of(row: AgentRow, active: Seq<char>) -> AgentGridTile {
    AgentGridTile {
        target: AgentGridTarget { endpoint_id: row.endpoint_id, pane_id: row.pane_id },
        stale: row.endpoint_stale,
        current: row.endpoint_id@ == active && row.focused,
    }
}

/// The cards for `rows`, in their order, of the agents that `filter` includes.
pub open spec fn tiles_spec(rows: Seq<AgentRow>, active: Seq<char>, filter: AgentGridFilter) -> Seq<
    AgentGridTile,
>
    decreases rows.len(),
{
    if rows.len() == 0 {
        Seq::empty()
    } else {
        let prev = tiles_spec(rows.drop_last(), active, filter);
        if includes_spec(filter, rows.last().agent_status) {
            prev.push(tile_of(rows.last(), active))
        } else {
            prev
        }
    }
}

/// The cards of the grid: one per agent row that `filter` includes, in the
/// rows' order.
pub fn agent_grid_tiles(rows: &[AgentRow], active_endpoint_id: &String, filter: AgentGridFilter) -> (r:
    Vec<AgentGridTile>)
    ensures
        r@ == tiles_spec(rows@, active_endpoint_id@, filter),
{
    let mut out: Vec<AgentGridTile> = Vec::new();
    let mut i: usize = 0;
    while i < rows.len()
        invariant
            i <= rows@.len(),
            out@ == tiles_spec(rows@.take(i as int), active_endpoint_id@, filter),
        decreases rows@.len() - i,
    {
        let row = &rows[i];
        proof {
            assert(rows@.take(i + 1).drop_last() =~= rows@.take(i as int));
            assert(rows@.take(i + 1).last() == rows@[i as int]);
        }
        if filter.includes(row.agent_status) {
            let same_endpoint = row.endpoint_id == *active_endpoint_id;
            let tile = AgentGridTile {
                target: AgentGridTarget {
                    endpoint_id: row.endpoint_id.clone(),
                    pane_id: row.pane_id.clone(),
                },
                stale: row.endpoint_stale,
                current: same_endpoint && row.focused,
            };
            out.push(tile);
        }
        i = i + 1;
    }
    proof {
        assert(rows@.take(rows@.len() as int) =~= rows@);
    }
    out
}

fn target_eq(a: &AgentGridTarget, b: &AgentGridTarget) -> (r: bool)
    ensures
        r == same_target(*a, *b),
{
    a.endpoint_id == b.endpoint_id && a.pane_id == b.pane_id
}

/// With every agent shown, there is one card per row, in the rows' order.
pub proof fn lemma_all_filter_keeps_every_row(rows: Seq<AgentRow>, active: Seq<char>)
    ensures
        tiles_spec(rows, active, AgentGridFilter::All) == rows.map_values(
            |row: AgentRow| tile_of(row, active),
        ),
    decreases rows.len(),
{
    if rows.len() > 0 {
        lemma_all_filter_keeps_every_row(rows.drop_last(), active);
        assert(rows.map_values(|row: AgentRow| tile_of(row, active)) =~= rows.drop_last().map_values(
            |row: AgentRow| tile_of(row, active),
        ).push(tile_of(rows.last(), active)));
    } else {
        assert(rows.map_values(|row: AgentRow| tile_of(row, active)) =~= Seq::<AgentGridTile>::empty());
    }
}

/// `tile` is the card of one of `rows` that `filter` includes.
pub open spec fn shows_included_row(
    tile: AgentGridTile,
    rows: Seq<AgentRow>,
    active: Seq<char>,
    filter: AgentGridFilter,
) -> bool {
    exists|j: int|
        0 <= j < rows.len() && includes_spec(filter, rows[j].agent_status) && tile == tile_of(
            #[trigger] rows[j],
            active,
        )
}

/// Every card shows an agent that the filter includes, and there are never
/// more cards than rows.
pub proof fn lemma_tiles_pass_filter(rows: Seq<AgentRow>, active: Seq<char>, filter: AgentGridFilter)
    ensures
        tiles_spec(rows, active, filter).len() <= rows.len(),
        forall|k: int|
            0 <= k < tiles_spec(rows, active, filter).len() ==> shows_included_row(
                #[trigger] tiles_spec(rows, active, filter)[k],
                rows,
                active,
                filter,
            ),
    decreases rows.len(),
{
    if rows.len() > 0 {
        let prev = rows.drop_last();
        lemma_tiles_pass_filter(prev, active, filter);
        let t = tiles_spec(rows, active, filter);
        let tp = tiles_spec(prev, active, filter);
        assert forall|k: int| 0 <= k < t.len() implies shows_included_row(
            #[trigger] t[k],
            rows,
            active,
            filter,
        ) by {
            if k < tp.len() {
                assert(t[k] == tp[k]);
                assert(shows_included_row(tp[k], prev, active, filter));
                let j = choose|j: int|
                    0 <= j < prev.len() && includes_spec(filter, prev[j].agent_status) && tp[k]
                        == tile_of(prev[j], active);
                assert(prev[j] == rows[j]);
                assert(0 <= j < rows.len() && includes_spec(filter, rows[j].agent_status) && t[k]
                    == tile_of(rows[j], active));
            } else {
                let j = rows.len() - 1;
                assert(t[k] == tile_of(rows.last(), active));
                assert(rows.last() == rows[j]);
                assert(0 <= j < rows.len() && includes_spec(filter, rows[j].agent_status) && t[k]
                    == tile_of(rows[j], active));
            }
        }
    }
}

/// `idx` picks the elements of `a` out of `b`, in increasing positions.
pub open spec fn picks<T>(idx: Seq<int>, a: Seq<T>, b: Seq<T>) -> bool {
    &&& idx.len() == a.len()
    &&& forall|k: int| 0 <= k < idx.len() ==> 0 <= #[trigger] idx[k] < b.len() && a[k] == b[idx[k]]
    &&& forall|k1: int, k2: int| 0 <= k1 < k2 < idx.len() ==> #[trigger] idx[k1] < #[trigger] idx[k2]
}

/// `a` is `b` with some elements left out and the others kept in order.
pub open spec fn is_subsequence<T>(a: Seq<T>, b: Seq<T>) -> bool {
    exists|idx: Seq<int>| #[trigger] picks(idx, a, b)
}

proof fn lemma_tiles_picks(rows: Seq<AgentRow>, active: Seq<char>, filter: AgentGridFilter) -> (idx:
    Seq<int>)
    ensures
        picks(
            idx,
            tiles_spec(rows, active, filter),
            rows.map_values(|row: AgentRow| tile_of(row, active)),
        ),
    decreases rows.len(),
{
    if rows.len() == 0 {
        Seq::empty()
    } else {
        let prev = rows.drop_last();
        let idx0 = lemma_tiles_picks(prev, active, filter);
        let b0 = prev.map_values(|row: AgentRow| tile_of(row, active));
        let b = rows.map_values(|row: AgentRow| tile_of(row, active));
        assert(b =~= b0.push(tile_of(rows.last(), active)));
        let a0 = tiles_spec(prev, active, filter);
        let n = rows.len() - 1;
        if includes_spec(filter, rows.last().agent_status) {
            let idx = idx0.push(n);
            let a = a0.push(tile_of(rows.last(), active));
            assert forall|k: int| 0 <= k < idx.len() implies 0 <= #[trigger] idx[k] < b.len() && a[k]
                == b[idx[k]] by {
                if k < idx0.len() {
                    assert(idx[k] == idx0[k]);
                    assert(0 <= idx0[k] < b0.len() && a0[k] == b0[idx0[k]]);
                }
            }
            assert forall|k1: int, k2: int| 0 <= k1 < k2 < idx.len() implies #[trigger] idx[k1]
                < #[trigger] idx[k2] by {
                assert(idx[k1] == idx0[k1]);
                if k2 < idx0.len() {
                    assert(idx[k2] == idx0[k2]);
                    assert(idx0[k1] < idx0[k2]);
                } else {
                    assert(0 <= idx0[k1] < b0.len());
                }
            }
            idx
        } else {
            assert forall|k: int| 0 <= k < idx0.len() implies 0 <= #[trigger] idx0[k] < b.len() && a0[k]
                == b[idx0[k]] by {
                assert(0 <= idx0[k] < b0.len() && a0[k] == b0[idx0[k]]);
            }
            idx0
        }
    }
}

/// Whatever the filter, its cards are the cards of the "all agents" grid
/// with some left out, the others in the same order; that grid has one card
/// per agent row.
pub proof fn lemma_filtered_tiles_are_subsequence(
    rows: Seq<AgentRow>,
    active: Seq<char>,
    filter: AgentGridFilter,
)
    ensures
        tiles_spec(rows, active, AgentGridFilter::All).len() == rows.len(),
        is_subsequence(
            tiles_spec(rows, active, filter),
            tiles_spec(rows, active, AgentGridFilter::All),
        ),
{
    lemma_all_filter_keeps_every_row(rows, active);
    let idx = lemma_tiles_picks(rows, active, filter);
    assert(picks(idx, tiles_spec(rows, active, filter), tiles_spec(rows, active, AgentGridFilter::All)));
}

/// Where the selection stands among the tiles: the index of the first tile
/// whose target is `selected`, or 0 when no tile has it or nothing is
/// selected.
pub fn selected_index(tiles: &[AgentGridTile], selected: Option<&AgentGridTarget>) -> (r: usize)
    ensures
        match selected {
            Some(t) => if exists|k: int| 0 <= k < tiles@.len() && same_target(#[trigger] tiles@[k].target, *t) {
                &&& r < tiles@.len()
                &&& same_target(tiles@[r as int].target, *t)
                &&& forall|j: int| 0 <= j < r ==> !same_target(#[trigger] tiles@[j].target, *t)
            } else {
                r == 0
            },
            None => r == 0,
        },
{
    match selected {
        None => 0,
        Some(t) => {
            let mut i: usize = 0;
            while i < tiles.len()
                invariant
                    selected == Some(t),
                    i <= tiles@.len(),
                    forall|j: int| 0 <= j < i ==> !same_target(#[trigger] tiles@[j].target, *t),
                decreases tiles@.len() - i,
            {
                if target_eq(&tiles[i].target, t) {
                    assert(same_target(tiles@[i as int].target, *t));
                    return i;
                }
                i = i + 1;
            }
            0
        },
    }
}

/// The tiles of page `page` (the last page when `page` lies past it).
pub fn visible_page(tiles: &[AgentGridTile], page: usize, page_len: usize) -> (r: &[AgentGridTile])
    requires
        // a slice holds at most `isize::MAX` bytes
        tiles@.len() <= isize::MAX,
    ensures
        r@ == tiles@.subrange(
            page_bounds(tiles@.len() as int, page as int, page_len as int).0,
            page_bounds(tiles@.len() as int, page as int, page_len as int).1,
        ),
{
    proof {
        lemma_page_bounds(tiles@.len() as int, page as int, page_len as int);
    }
    if page_len == 0 || tiles.len() == 0 {
        return vstd::slice::slice_subrange(tiles, 0, 0);
    }
    let page = clamp_page(page, tiles.len(), page_len);
    assert(page * page_len <= tiles@.len());
    let start = page * page_len;
    proof {
        lemma_div_ceil(tiles@.len() as int, page_len as int);
        if start > 0 {
            let pages = page_count_spec(tiles@.len() as int, page_len as int);
            assert(page >= 1) by (nonlinear_arith)
                requires
                    start == page * page_len,
                    start > 0,
            ;
            assert(pages >= 2);
            assert((pages - 1) * page_len >= page_len) by (nonlinear_arith)
                requires
                    pages >= 2,
                    page_len > 0,
            ;
            assert(page_len < tiles@.len());
        }
    }
    let end = (start + page_len).min(tiles.len());
    vstd::slice::slice_subrange(tiles, start, end)
}


/// `a - b`, or 0 when `b` is the larger.
pub open spec fn sat_sub(a: int, b: int) -> int {
    if a >= b {
        a - b
    } else {
        0
    }
}

/// Width of one cell when `cols` cells and their gaps share `body`'s width.
pub open spec fn cell_w_spec(body: Rect, cols: u16) -> int {
    let c = max_int(cols as int, 1);
    sat_sub(body.width as int, CELL_GAP * (c - 1)) / c
}

/// Height of one cell when `rows` cells and their gaps share `body`'s height.
pub open spec fn cell_h_spec(body: Rect, rows: u16) -> int {
    let r = max_int(rows as int, 1);
    sat_sub(body.height as int, CELL_GAP * (r - 1)) / r
}

/// Column of cell `index`, cells being numbered row by row.
pub open spec fn cell_col(cols: u16, index: usize) -> int {
    (index as u16) as int % max_int(cols as int, 1)
}

/// Row of cell `index`, cells being numbered row by row.
pub open spec fn cell_row(cols: u16, index: usize) -> int {
    (index as u16) as int / max_int(cols as int, 1)
}

/// Offset of cell `index` from the left of `body`.
pub open spec fn cell_dx(body: Rect, cols: u16, index: usize) -> int {
    cell_col(cols, index) * (cell_w_spec(body, cols) + CELL_GAP)
}

/// Offset of cell `index` from the top of `body`.
pub open spec fn cell_dy(body: Rect, cols: u16, rows: u16, index: usize) -> int {
    cell_row(cols, index) * (cell_h_spec(body, rows) + CELL_GAP)
}

/// The position of cell `index` can be computed in `u16` arithmetic.
pub open spec fn cell_rect_defined(body: Rect, cols: u16, rows: u16, index: usize) -> bool {
    &&& cell_w_spec(body, cols) + CELL_GAP <= u16::MAX
    &&& cell_h_spec(body, rows) + CELL_GAP <= u16::MAX
    &&& cell_dx(body, cols, index) <= u16::MAX
    &&& cell_dy(body, cols, rows, index) <= u16::MAX
    &&& body.x + cell_dx(body, cols, index) <= u16::MAX
    &&& body.y + cell_dy(body, cols, rows, index) <= u16::MAX
}

/// The rectangle of cell `index` in a grid of `cols` by `rows` cells that
/// shares `body` out, with `CELL_GAP` between neighbours.
pub open spec fn cell_rect_spec(body: Rect, cols: u16, rows: u16, index: usize) -> Rect {
    rect_spec(
        (body.x + cell_dx(body, cols, index)) as u16,
        (body.y + cell_dy(body, cols, rows, index)) as u16,
        max_int(cell_w_spec(body, cols), 1) as u16,
        max_int(cell_h_spec(body, rows), 1) as u16,
    )
}

/// The rectangle of cell `index` of the grid drawn in `body`.
pub fn cell_rect(body: Rect, cols: u16, rows: u16, index: usize) -> (r: Rect)
    requires
        cell_rect_defined(body, cols, rows, index),
    ensures
        r == cell_rect_spec(body, cols, rows, index),
{
    let cols = cols.max(1);
    let rows = rows.max(1);
    let col = (index as u16) % cols;
    let row = (index as u16) / cols;
    let cell_w = body.width.saturating_sub(CELL_GAP * (cols - 1)) / cols;
    let cell_h = body.height.saturating_sub(CELL_GAP * (rows - 1)) / rows;
    Rect::new(
        body.x + col * (cell_w + CELL_GAP),
        body.y + row * (cell_h + CELL_GAP),
        cell_w.max(1),
        cell_h.max(1),
    )
}


/// `inner` lies within `outer`.
pub open spec fn rect_within(inner: Rect, outer: Rect) -> bool {
    &&& outer.x <= inner.x
    &&& outer.y <= inner.y
    &&& inner.x + inner.width <= outer.x + outer.width
    &&& inner.y + inner.height <= outer.y + outer.height
}

/// `a` and `b` share no cell.
pub open spec fn rects_disjoint(a: Rect, b: Rect) -> bool {
    ||| a.x + a.width <= b.x
    ||| b.x + b.width <= a.x
    ||| a.y + a.height <= b.y
    ||| b.y + b.height <= a.y
}

/// The layout of a grid whose cells are each at least one cell wide and
/// high.
pub open spec fn grid_in_body(body: Rect, cols: u16, rows: u16) -> bool {
    &&& cols >= 1
    &&& rows >= 1
    &&& body.width >= 2 * cols - 1
    &&& body.height >= 2 * rows - 1
}

proof fn lemma_cell_axis(len: int, n: int, k: int, origin: int)
    requires
        n >= 1,
        len >= 2 * n - 1,
        0 <= k < n,
        origin >= 0,
    ensures
        (sat_sub(len, CELL_GAP * (n - 1)) / n) >= 1,
        k * (sat_sub(len, CELL_GAP * (n - 1)) / n + CELL_GAP) + sat_sub(len, CELL_GAP * (n - 1))
            / n <= len,
        k * (sat_sub(len, CELL_GAP * (n - 1)) / n + CELL_GAP) >= 0,
{
    let w = sat_sub(len, CELL_GAP * (n - 1)) / n;
    assert(sat_sub(len, CELL_GAP * (n - 1)) == len - (n - 1));
    assert(w >= 1 && n * w <= len - (n - 1)) by (nonlinear_arith)
        requires
            w == (len - (n - 1)) / n,
            len - (n - 1) >= n,
            n >= 1,
    ;
    assert(k * (w + 1) + w <= len) by (nonlinear_arith)
        requires
            0 <= k <= n - 1,
            n * w <= len - (n - 1),
            w >= 1,
    ;
    assert(k * (w + 1) >= 0) by (nonlinear_arith)
        requires
            k >= 0,
            w >= 1,
    ;
}

proof fn lemma_cell_axis_apart(w: int, k1: int, k2: int)
    requires
        w >= 1,
        0 <= k1 < k2,
    ensures
        k1 * (w + CELL_GAP) + w <= k2 * (w + CELL_GAP),
{
    assert(k1 * (w + 1) + w <= k2 * (w + 1)) by (nonlinear_arith)
        requires
            w >= 1,
            0 <= k1 < k2,
    ;
}

/// Every cell of a page (an index below `cols * rows`) lies inside the body.
pub proof fn lemma_cell_inside_body(body: Rect, cols: u16, rows: u16, index: usize)
    requires
        grid_in_body(body, cols, rows),
        index < cols * rows,
        index <= u16::MAX,
        cell_rect_defined(body, cols, rows, index),
    ensures
        rect_within(cell_rect_spec(body, cols, rows, index), body),
{
    let c = cols as int;
    let i = index as int;
    assert((index as u16) as int == i);
    let col = i % c;
    let row = i / c;
    assert(0 <= col < c && 0 <= row < rows && i == row * c + col) by (nonlinear_arith)
        requires
            c >= 1,
            0 <= i < c * rows,
            col == i % c,
            row == i / c,
    ;
    assert(cell_col(cols, index) == col);
    assert(cell_row(cols, index) == row);
    assert(cell_w_spec(body, cols) == sat_sub(body.width as int, CELL_GAP * (c - 1)) / c);
    assert(cell_h_spec(body, rows) == sat_sub(body.height as int, CELL_GAP * (rows - 1)) / (
    rows as int));
    assert(sat_sub(body.width as int, CELL_GAP * (c - 1)) / c <= body.width) by (nonlinear_arith)
        requires
            c >= 1,
            0 <= sat_sub(body.width as int, CELL_GAP * (c - 1)) <= body.width,
    ;
    assert(sat_sub(body.height as int, CELL_GAP * (rows - 1)) / (rows as int) <= body.height)
        by (nonlinear_arith)
        requires
            rows >= 1,
            0 <= sat_sub(body.height as int, CELL_GAP * (rows - 1)) <= body.height,
    ;
    lemma_cell_axis(body.width as int, c, col, body.x as int);
    lemma_cell_axis(body.height as int, rows as int, row, body.y as int);
}

/// Two different cells of a page share no terminal cell.
pub proof fn lemma_cells_disjoint(body: Rect, cols: u16, rows: u16, i: usize, j: usize)
    requires
        grid_in_body(body, cols, rows),
        i < cols * rows,
        j < cols * rows,
        i <= u16::MAX,
        j <= u16::MAX,
        i != j,
        cell_rect_defined(body, cols, rows, i),
        cell_rect_defined(body, cols, rows, j),
    ensures
        rects_disjoint(cell_rect_spec(body, cols, rows, i), cell_rect_spec(body, cols, rows, j)),
{
    lemma_cell_inside_body(body, cols, rows, i);
    lemma_cell_inside_body(body, cols, rows, j);
    let c = cols as int;
    assert((i as u16) as int == i as int);
    assert((j as u16) as int == j as int);
    let ci = cell_col(cols, i);
    let cj = cell_col(cols, j);
    let ri = cell_row(cols, i);
    let rj = cell_row(cols, j);
    assert(i == ri * c + ci && j == rj * c + cj) by (nonlinear_arith)
        requires
            c >= 1,
            ci == (i as int) % c,
            ri == (i as int) / c,
            cj == (j as int) % c,
            rj == (j as int) / c,
    ;
    let w = cell_w_spec(body, cols);
    let h = cell_h_spec(body, rows);
    lemma_cell_axis(body.width as int, c, 0, body.x as int);
    lemma_cell_axis(body.height as int, rows as int, 0, body.y as int);
    assert(w == sat_sub(body.width as int, CELL_GAP * (c - 1)) / c);
    assert(h == sat_sub(body.height as int, CELL_GAP * (rows - 1)) / (rows as int));
    if ci < cj {
        lemma_cell_axis_apart(w, ci, cj);
    } else if cj < ci {
        lemma_cell_axis_apart(w, cj, ci);
    } else if ri < rj {
        lemma_cell_axis_apart(h, ri, rj);
    } else {
        assert(rj < ri);
        lemma_cell_axis_apart(h, rj, ri);
    }
}

} // verus!
