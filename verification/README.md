# smeagol

A library for Conway's Game of Life on hashed quadtrees (hashlife), written
in Verus: the executable code carries `requires`/`ensures` contracts, and
Verus proves that the code meets them.

## Layout

- `src/`: the verified library.
  - `node/`, `life.rs`: the hashed quadtree, its node store and caches, and
    the `Life` grid that steps `2^k` generations at a time.
  - `packed/`, `packed.rs`, `store.rs`, `tree.rs`, `leaf.rs`, `bitlife.rs`:
    other node stores and leaf representations, with bit-parallel rules.
  - `rle.rs`, `bare_rle.rs`, `pattern.rs`, `macrocell.rs`: readers of the
    RLE and macrocell pattern formats, each a byte-level grammar with an
    exact contract.
  - `key.rs`, `view.rs`, `render.rs`, `window.rs`: the view of a terminal
    viewer (panning, zoom, braille glyphs), as pure functions.
  - `grid.rs`, `quad.rs`, `memory.rs`, `ids.rs`, `counter.rs`,
    `bool8x8.rs`, `bitgrid.rs`, `coords.rs`, `util.rs`: small grids,
    arenas, bit-parallel counters and coordinates.
- `tests/`: tests run against the compiled library.
- `app/`: the terminal viewer: reading files, the event loop and drawing.

Outside crates (`hashbrown`, `generational-arena`, `arrayvec`, `btoi`,
`braille`) are called through a few trusted wrappers whose contracts state
what those crates document.
