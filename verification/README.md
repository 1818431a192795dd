# mcpnr_pnr

Place-and-route for circuits built out of blocks: a synthesized netlist is placed onto a
three-dimensional grid of cells, drawn block by block, and its nets are routed as redstone
wires across stacked routing layers.

## Layout

- `src/` — the verified library. Every function carries a Verus contract.
  - `block_storage` — the output volume: a palette of block types and one palette index per
    block; directions and positions.
  - `design`, `yosys`, `cell_params` — the synthesized and the placed design, and numeric
    cell parameters.
  - `hypergraph`, `placer`, `placement_cell`, `legalizer` — the integer side of placement:
    signals of a module, net decomposition into solver terms, cell footprints, and the
    row bookkeeping of the TETRIS legalizer.
  - `structure_cache`, `netlist`, `splat` — cell structures and their pins, the netlist of
    a placed design, and drawing cells into the output.
  - `routing_2d`, `detail_routing`, `wire_segment`, `router` — the planar router, the 3D
    detail router, turning routed wire cells into blocks, and rip-up-and-reroute.
- `tests/` — tests of the library.
- `app/` — the command-line tool: file formats (Yosys JSON, protobuf placed designs, NBT
  structures, JSON output), the floating-point parts of placement (analytic solve,
  diffusion, legalizer cost), and the `place` and `route` commands.
