use herdr::agent_grid::{
    agent_grid_tiles, cell_rect, clamp_page, grid_geometry, page_count, selected_index,
    visible_page, AgentGridFilter, AgentGridTarget, AgentRow, AgentStatus, AGENT_GRID_PAGE_CAP,
};
use herdr::rect::Rect;

#[test]
fn grid_geometry_caps_page_and_keeps_minimum_cells() {
    let area = Rect::new(0, 0, 80, 24);
    let (cols, rows, page_len) = grid_geometry(40, area);
    assert!(cols >= 1);
    assert!(rows >= 1);
    assert!(page_len <= AGENT_GRID_PAGE_CAP);
    assert!(page_len >= 1);
    let tiny = Rect::new(0, 0, 10, 3);
    assert_eq!(grid_geometry(8, tiny), (0, 0, 0));
    let two = grid_geometry(2, Rect::new(0, 0, 80, 24));
    assert_eq!(two.0, 2);
    assert_eq!(two.1, 1);
}

#[test]
fn attention_filter_keeps_working_and_blocked() {
    assert!(AgentGridFilter::Attention.includes(AgentStatus::Working));
    assert!(AgentGridFilter::Attention.includes(AgentStatus::Blocked));
    assert!(!AgentGridFilter::Attention.includes(AgentStatus::Idle));
    assert!(AgentGridFilter::All.includes(AgentStatus::Idle));
}

#[test]
fn filter_labels() {
    assert_eq!(AgentGridFilter::Attention.label(), "working/blocked");
    assert_eq!(AgentGridFilter::All.label(), "all agents");
}

#[test]
fn grid_geometry_exact_values() {
    assert_eq!(grid_geometry(40, Rect::new(0, 0, 80, 24)), (2, 2, 4));
    assert_eq!(grid_geometry(0, Rect::new(0, 0, 80, 24)), (0, 0, 0));
    assert_eq!(grid_geometry(3, Rect::new(0, 0, 35, 24)), (0, 0, 0));
    assert_eq!(grid_geometry(3, Rect::new(0, 0, 80, 9)), (0, 0, 0));
    assert_eq!(grid_geometry(1, Rect::new(0, 0, 36, 10)), (1, 1, 1));
    // 5 columns and 4 rows fit, but a page holds at most 16 cards
    assert_eq!(grid_geometry(100, Rect::new(0, 0, 200, 50)), (5, 4, 16));
    // 5 agents in a 3 by 2 room: 3 columns, 2 rows, all 5 visible
    assert_eq!(grid_geometry(5, Rect::new(0, 0, 120, 30)), (3, 2, 6));
    // one row of three cards: 3 * 36 + 2 <= 110 and 10 <= 20 < 2 * 10 + 1
    assert_eq!(grid_geometry(7, Rect::new(0, 0, 110, 20)), (3, 1, 3));
}

#[test]
fn page_count_rounds_up() {
    assert_eq!(page_count(0, 4), 0);
    assert_eq!(page_count(5, 0), 0);
    assert_eq!(page_count(4, 4), 1);
    assert_eq!(page_count(5, 4), 2);
    assert_eq!(page_count(9, 4), 3);
}

#[test]
fn clamp_page_stays_on_last_page() {
    assert_eq!(clamp_page(0, 9, 4), 0);
    assert_eq!(clamp_page(2, 9, 4), 2);
    assert_eq!(clamp_page(7, 9, 4), 2);
    assert_eq!(clamp_page(3, 0, 4), 0);
    assert_eq!(clamp_page(3, 9, 0), 0);
}

fn row(endpoint: &str, pane: &str, status: AgentStatus, focused: bool) -> AgentRow {
    AgentRow {
        endpoint_id: endpoint.to_string(),
        endpoint_stale: endpoint == "remote",
        pane_id: pane.to_string(),
        agent_status: status,
        focused,
    }
}

fn rows() -> Vec<AgentRow> {
    vec![
        row("local", "pane_1", AgentStatus::Working, true),
        row("local", "pane_2", AgentStatus::Blocked, false),
        row("local", "pane_idle", AgentStatus::Idle, false),
        row("remote", "pane_1", AgentStatus::Working, true),
    ]
}

#[test]
fn tiles_follow_filter_and_order() {
    let active = "local".to_string();
    let all = agent_grid_tiles(&rows(), &active, AgentGridFilter::All);
    let panes: Vec<&str> = all.iter().map(|t| t.target.pane_id.as_str()).collect();
    assert_eq!(panes, vec!["pane_1", "pane_2", "pane_idle", "pane_1"]);
    assert!(all[0].current);
    assert!(!all[1].current);
    // focused, but not on the active endpoint
    assert!(!all[3].current);
    assert!(all[3].stale);
    assert_eq!(all[3].target.endpoint_id, "remote");

    let attention = agent_grid_tiles(&rows(), &active, AgentGridFilter::Attention);
    let panes: Vec<&str> = attention.iter().map(|t| t.target.pane_id.as_str()).collect();
    assert_eq!(panes, vec!["pane_1", "pane_2", "pane_1"]);
}

#[test]
fn selected_index_finds_first_match() {
    let active = "local".to_string();
    let tiles = agent_grid_tiles(&rows(), &active, AgentGridFilter::All);
    let target = AgentGridTarget { endpoint_id: "remote".into(), pane_id: "pane_1".into() };
    assert_eq!(selected_index(&tiles, Some(&target)), 3);
    let target = AgentGridTarget { endpoint_id: "local".into(), pane_id: "pane_2".into() };
    assert_eq!(selected_index(&tiles, Some(&target)), 1);
    let missing = AgentGridTarget { endpoint_id: "local".into(), pane_id: "gone".into() };
    assert_eq!(selected_index(&tiles, Some(&missing)), 0);
    assert_eq!(selected_index(&tiles, None), 0);
}

#[test]
fn visible_page_slices_and_clamps() {
    let active = "local".to_string();
    let tiles = agent_grid_tiles(&rows(), &active, AgentGridFilter::All);
    assert_eq!(visible_page(&tiles, 0, 3).len(), 3);
    let second = visible_page(&tiles, 1, 3);
    assert_eq!(second.len(), 1);
    assert_eq!(second[0].target.endpoint_id, "remote");
    // past the last page: the last page
    assert_eq!(visible_page(&tiles, 9, 3).len(), 1);
    assert_eq!(visible_page(&tiles, 0, 0).len(), 0);
    assert_eq!(visible_page(&[], 0, 3).len(), 0);
    // every tile sits on page i / len at position i % len
    for len in 1..6 {
        for i in 0..tiles.len() {
            let page = visible_page(&tiles, i / len, len);
            assert_eq!(page[i % len].target.pane_id, tiles[i].target.pane_id);
            assert_eq!(page[i % len].target.endpoint_id, tiles[i].target.endpoint_id);
        }
    }
}

#[test]
fn cell_rect_lays_out_row_by_row() {
    let body = Rect::new(2, 3, 75, 21);
    // 2 columns: (75 - 1) / 2 = 37 wide; 2 rows: (21 - 1) / 2 = 10 high
    assert_eq!(cell_rect(body, 2, 2, 0), Rect::new(2, 3, 37, 10));
    assert_eq!(cell_rect(body, 2, 2, 1), Rect::new(40, 3, 37, 10));
    assert_eq!(cell_rect(body, 2, 2, 2), Rect::new(2, 14, 37, 10));
    assert_eq!(cell_rect(body, 2, 2, 3), Rect::new(40, 14, 37, 10));
    // zero columns or rows count as one
    assert_eq!(cell_rect(body, 0, 0, 0), Rect::new(2, 3, 75, 21));
    // cells never get narrower than one column
    assert_eq!(cell_rect(Rect::new(0, 0, 3, 1), 4, 1, 1), Rect::new(1, 0, 1, 1));
}

#[test]
fn cells_of_a_page_do_not_overlap() {
    let body = Rect::new(1, 1, 110, 32);
    let (cols, rows) = (3u16, 3u16);
    let cells: Vec<Rect> = (0..9).map(|i| cell_rect(body, cols, rows, i)).collect();
    for (i, a) in cells.iter().enumerate() {
        assert!(a.x >= body.x && a.x + a.width <= body.x + body.width);
        assert!(a.y >= body.y && a.y + a.height <= body.y + body.height);
        for b in cells.iter().skip(i + 1) {
            let apart = a.x + a.width <= b.x
                || b.x + b.width <= a.x
                || a.y + a.height <= b.y
                || b.y + b.height <= a.y;
            assert!(apart);
        }
    }
}

#[test]
fn rect_new_clips_to_plane() {
    assert_eq!(Rect::new(65530, 0, 10, 3), Rect { x: 65530, y: 0, width: 5, height: 3 });
    assert_eq!(Rect::new(0, 65535, 1, 9).height, 0);
    assert_eq!(Rect::new(1, 2, 3, 4).right(), 4);
    assert_eq!(Rect::new(1, 2, 3, 4).bottom(), 6);
}

#[test]
fn cells_across_the_whole_plane_do_not_overlap() {
    let body = Rect::new(0, 0, 65535, 3);
    let left = cell_rect(body, 2, 1, 0);
    let right = cell_rect(body, 2, 1, 1);
    assert_eq!(left, Rect::new(0, 0, 32767, 3));
    assert_eq!(right, Rect::new(32768, 0, 32767, 3));
    assert!(left.x + left.width <= right.x);
}

#[test]
fn pages_partition_the_tiles() {
    let active = "local".to_string();
    let tiles = agent_grid_tiles(&rows(), &active, AgentGridFilter::All);
    for len in 1..6 {
        let mut joined = Vec::new();
        for page in 0..page_count(tiles.len(), len) {
            joined.extend(visible_page(&tiles, page, len).iter().map(|t| t.target.pane_id.clone()));
        }
        let all: Vec<String> = tiles.iter().map(|t| t.target.pane_id.clone()).collect();
        assert_eq!(joined, all);
    }
}

#[test]
fn attention_tiles_keep_the_order_of_all_tiles() {
    let active = "local".to_string();
    let all = agent_grid_tiles(&rows(), &active, AgentGridFilter::All);
    let attention = agent_grid_tiles(&rows(), &active, AgentGridFilter::Attention);
    assert_eq!(all.len(), rows().len());
    let mut next = 0;
    for tile in &attention {
        while !(all[next].target.pane_id == tile.target.pane_id
            && all[next].target.endpoint_id == tile.target.endpoint_id)
        {
            next += 1;
        }
        next += 1;
    }
    assert!(next <= all.len());
}
