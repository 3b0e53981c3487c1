//! Verified core of the herdr agent grid: build identity, grid geometry and
//! paging, and the ANSI screen-dump painter that fills the grid's cards.

pub mod agent_grid;
pub mod ansi_fit;
pub mod ansi_paint;
pub mod ansi_parse;
pub mod build_info;
pub mod rect;
pub mod sgr;
pub mod style;
pub mod text;
