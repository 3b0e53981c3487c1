# herdr core

The logic behind herdr's agent grid overlay, written in Verus and proved
against its contracts.

- `build_info` — build channel, build id and version string from the raw
  build-environment values.
- `agent_grid` — which agents get a card, how many cards fit in an area, paging,
  and the rectangle of each card.
- `ansi_parse`, `sgr`, `style` — reading a visible-screen ANSI dump into rows of
  styled characters.
- `ansi_fit`, `ansi_paint` — fitting those rows into a card and placing each
  character on a terminal cell.
- `rect`, `text` — rectangles, character classes, display widths (through the
  `unicode-width` crate) and string trimming.

`app/` holds the terminal side: it reads the build environment and writes the
painted cells into a ratatui buffer.
