//! Place-and-route core for building redstone circuits out of blocks: block storage, geometry,
//! grid routers, netlists and the integer side of the analytical placer.

use vstd::prelude::*;

pub mod block_storage;
pub mod cell_params;
pub mod config;
pub mod design;
pub mod detail_routing;
pub mod hypergraph;
pub mod legalizer;
pub mod netlist;
pub mod placement_cell;
pub mod placer;
pub mod router;
pub mod routing_2d;
pub mod splat;
pub mod structure_cache;
pub mod text;
pub mod wire_segment;
pub mod yosys;

verus! {

/// Number of blocks per row along the Z axis. This is chosen to be larger than the maximum Z
/// size of any cell.
pub const BLOCKS_PER_Z_ROW: u32 = 6;

/// Number of blocks per tier. Each tier is composed of a layer of cells and 4 "metal" layers,
/// used for routing. The cell layer is 8 blocks high, and each metal layer is 2 blocks high.
pub const BLOCKS_PER_TIER: u32 = 16;

} // verus!
