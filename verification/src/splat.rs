//! Drawing placed cells into the output: a wool border around the whole output, rows of
//! lamps and levers for the I/O cells, and the blocks of each structure cell.

use vstd::prelude::*;

use crate::block_storage::{Block, BlockStorage, BlockStorageError, BlockStorageView, BlockTypeIndex, BlockView, PropertyValue};
use crate::cell_params::{CellExt, CellGetAttribError, ParamLookup};
use crate::design::{Cell, PlacedDesign};
use crate::structure_cache::{RoutableStructure, StructureBlock, StructureCache};
use crate::cell_params::assoc_lookup;
use crate::text::str_eq;
use crate::wire_segment::palette_with;
use vstd::string::StringExecFns;

verus! {

/// One block to place at in-range coordinates.
#[derive(Clone, Copy, Debug, PartialEq, Eq, Structural)]
pub struct PlacedBlock {
    pub x: u32,
    pub y: u32,
    pub z: u32,
    pub block: BlockTypeIndex,
}

/// Placing one block on storage `v`: the new storage, or the error that stops the placing.
pub open spec fn place_step(v: BlockStorageView, w: PlacedBlock) -> (BlockStorageView, Option<BlockStorageError>) {
    if !v.in_bounds(w.x as int, w.y as int, w.z as int) {
        (v, Some(BlockStorageError::OutOfBounds {
            x: w.x,
            y: w.y,
            z: w.z,
            size_x: v.extents.0 as u32,
            size_y: v.extents.1 as u32,
            size_z: v.extents.2 as u32,
        }))
    } else {
        (v.with_block(w.x as int, w.y as int, w.z as int, w.block), None)
    }
}

/// Placing the blocks `ws` in order, stopping at the first one outside the storage.
pub open spec fn run_placements(v: BlockStorageView, ws: Seq<PlacedBlock>) -> (BlockStorageView, Option<BlockStorageError>)
    decreases ws.len(),
{
    if ws.len() == 0 {
        (v, None)
    } else {
        let prev = run_placements(v, ws.drop_last());
        if prev.1 is Some {
            prev
        } else {
            place_step(prev.0, ws.last())
        }
    }
}

proof fn lemma_run_placements_persists(v: BlockStorageView, ws: Seq<PlacedBlock>, k: int)
    requires
        0 <= k <= ws.len(),
        run_placements(v, ws.take(k)).1 is Some,
    ensures
        run_placements(v, ws) == run_placements(v, ws.take(k)),
    decreases ws.len(),
{
    if k == ws.len() {
        assert(ws.take(k) =~= ws);
    } else {
        assert(ws.drop_last().take(k) =~= ws.take(k));
        lemma_run_placements_persists(v, ws.drop_last(), k);
    }
}

/// Places the blocks `ws` in order, stopping at the first one outside the storage.
fn apply_placements(o: &mut BlockStorage, ws: &Vec<PlacedBlock>) -> (r: Result<(), BlockStorageError>)
    requires
        old(o).wf(),
    ensures
        final(o).wf(),
        final(o)@ == run_placements(old(o)@, ws@).0,
        r == match run_placements(old(o)@, ws@).1 {
            Some(e) => Err::<(), BlockStorageError>(e),
            None => Ok(()),
        },
{
    let ghost v0 = o@;
    let n = ws.len();
    let mut i: usize = 0;
    while i < n
        invariant
            o.wf(),
            n == ws@.len(),
            i <= n,
            v0 == old(o)@,
            run_placements(v0, ws@.take(i as int)) == (o@, None::<BlockStorageError>),
        decreases n - i,
    {
        let w = ws[i];
        let ghost before = o@;
        proof {
            assert(ws@.take(i + 1).drop_last() =~= ws@.take(i as int));
            assert(ws@.take(i + 1).last() == w);
            assert(run_placements(v0, ws@.take(i + 1)) == place_step(before, w));
        }
        match o.get_block_mut(w.x, w.y, w.z) {
            Ok(b) => {
                *b = w.block;
            },
            Err(e) => {
                proof { lemma_run_placements_persists(v0, ws@, i + 1); }
                return Err(e);
            },
        }
        i = i + 1;
    }
    proof {
        assert(ws@.take(n as int) =~= ws@);
    }
    Ok(())
}

/// Errors raised while drawing cells.
#[derive(Debug)]
pub enum CellSplatError {
    /// A block falls outside the output.
    Storage(BlockStorageError),
    /// A cell parameter could not be read.
    Param(CellGetAttribError),
    /// No structure is known for the cell type.
    UnknownCellType,
    /// A structure block lands at a negative coordinate.
    NegativeCoordinate(i32),
    /// A structure block names a palette entry the structure does not have.
    InvalidBlockState(i32),
}

/// The last coordinate along an axis of size `e` (the largest `u32` when the axis is empty).
pub open spec fn far_side(e: u32) -> u32 {
    if e == 0 {
        u32::MAX
    } else {
        (e - 1) as u32
    }
}

/// The first `n` columns along x of a border row: the blocks at `z = 0` and at the far `z`
/// side.
pub open spec fn border_x_part(n: int, ez: u32, y: u32, wool: BlockTypeIndex) -> Seq<PlacedBlock> {
    Seq::new((2 * n) as nat, |k: int| if k % 2 == 0 {
        PlacedBlock { x: (k / 2) as u32, y, z: 0, block: wool }
    } else {
        PlacedBlock { x: (k / 2) as u32, y, z: far_side(ez), block: wool }
    })
}

/// The first `n` columns along z of a border row: the blocks at `x = 0` and at the far `x`
/// side.
pub open spec fn border_z_part(n: int, ex: u32, y: u32, wool: BlockTypeIndex) -> Seq<PlacedBlock> {
    Seq::new((2 * n) as nat, |k: int| if k % 2 == 0 {
        PlacedBlock { x: 0, y, z: (k / 2) as u32, block: wool }
    } else {
        PlacedBlock { x: far_side(ex), y, z: (k / 2) as u32, block: wool }
    })
}

/// The wool border of row `y`: along x the blocks at `z = 0` and at the far `z` side, then
/// along z the blocks at `x = 0` and at the far `x` side.
pub open spec fn border_row(ex: u32, ez: u32, y: u32, wool: BlockTypeIndex) -> Seq<PlacedBlock> {
    border_x_part(ex as int, ez, y, wool) + border_z_part(ez as int, ex, y, wool)
}

/// The border rows `0..ey`, bottom to top.
pub open spec fn border_plan(ex: u32, ey: u32, ez: u32, wool: BlockTypeIndex) -> Seq<PlacedBlock>
    decreases ey,
{
    if ey == 0 {
        seq![]
    } else {
        border_plan(ex, (ey - 1) as u32, ez, wool) + border_row(ex, ez, (ey - 1) as u32, wool)
    }
}

/// A block of wool at `(x, y, z)`.
pub open spec fn wool_at(x: u32, y: u32, z: u32, wool: BlockTypeIndex) -> PlacedBlock {
    PlacedBlock { x, y, z, block: wool }
}

/// One border row is wool on the four edges of row `y`, and covers them.
proof fn lemma_border_row(ex: u32, ez: u32, y: u32, wool: BlockTypeIndex)
    ensures
        forall|i: int| 0 <= i < border_row(ex, ez, y, wool).len() ==> {
            let b = #[trigger] border_row(ex, ez, y, wool)[i];
            &&& b.block == wool && b.y == y
            &&& b.x == 0 || b.x == far_side(ex) || b.z == 0 || b.z == far_side(ez)
        },
        forall|x: u32| x < ex ==> #[trigger] border_row(ex, ez, y, wool).contains(wool_at(x, y, 0, wool))
            && border_row(ex, ez, y, wool).contains(wool_at(x, y, far_side(ez), wool)),
        forall|z: u32| z < ez ==> #[trigger] border_row(ex, ez, y, wool).contains(wool_at(0, y, z, wool))
            && border_row(ex, ez, y, wool).contains(wool_at(far_side(ex), y, z, wool)),
{
    let r = border_row(ex, ez, y, wool);
    let xs = border_x_part(ex as int, ez, y, wool);
    let zs = border_z_part(ez as int, ex, y, wool);
    assert forall|x: u32| x < ex implies #[trigger] r.contains(wool_at(x, y, 0, wool))
        && r.contains(wool_at(x, y, far_side(ez), wool)) by {
        assert((2 * x) / 2 == x && (2 * x) % 2 == 0 && (2 * x + 1) / 2 == x && (2 * x + 1) % 2 == 1);
        assert(r[2 * x] == xs[2 * x]);
        assert(r[2 * x + 1] == xs[2 * x + 1]);
    }
    assert forall|z: u32| z < ez implies #[trigger] r.contains(wool_at(0, y, z, wool))
        && r.contains(wool_at(far_side(ex), y, z, wool)) by {
        assert((2 * z) / 2 == z && (2 * z) % 2 == 0 && (2 * z + 1) / 2 == z && (2 * z + 1) % 2 == 1);
        assert(r[xs.len() + 2 * z] == zs[2 * z]);
        assert(r[xs.len() + 2 * z + 1] == zs[2 * z + 1]);
    }
}

/// The wool border of an output of extents `(ex, ey, ez)` is exactly its outer edge in every
/// row: each block it places is wool in a row below `ey` with `x` or `z` on an edge (`0` or
/// the far side), and every edge position of every row, along x at `z = 0` and at the far
/// `z`, along z at `x = 0` and at the far `x`, is placed.
pub proof fn lemma_border_on_edges(ex: u32, ey: u32, ez: u32, wool: BlockTypeIndex)
    ensures
        forall|i: int| 0 <= i < border_plan(ex, ey, ez, wool).len() ==> {
            let b = #[trigger] border_plan(ex, ey, ez, wool)[i];
            &&& b.block == wool && b.y < ey
            &&& b.x == 0 || b.x == far_side(ex) || b.z == 0 || b.z == far_side(ez)
        },
        forall|x: u32, y: u32| x < ex && y < ey ==> #[trigger] border_plan(ex, ey, ez, wool).contains(wool_at(x, y, 0, wool))
            && border_plan(ex, ey, ez, wool).contains(wool_at(x, y, far_side(ez), wool)),
        forall|z: u32, y: u32| z < ez && y < ey ==> #[trigger] border_plan(ex, ey, ez, wool).contains(wool_at(0, y, z, wool))
            && border_plan(ex, ey, ez, wool).contains(wool_at(far_side(ex), y, z, wool)),
    decreases ey,
{
    if ey > 0 {
        let top = (ey - 1) as u32;
        lemma_border_on_edges(ex, top, ez, wool);
        lemma_border_row(ex, ez, top, wool);
        let prev = border_plan(ex, top, ez, wool);
        let row = border_row(ex, ez, top, wool);
        let plan = border_plan(ex, ey, ez, wool);
        assert(plan == prev + row);
        assert forall|i: int| 0 <= i < plan.len() implies {
            let b = #[trigger] plan[i];
            &&& b.block == wool && b.y < ey
            &&& b.x == 0 || b.x == far_side(ex) || b.z == 0 || b.z == far_side(ez)
        } by {
            if i < prev.len() {
                assert(plan[i] == prev[i]);
            } else {
                assert(plan[i] == row[i - prev.len()]);
            }
        }
        assert forall|b: PlacedBlock| prev.contains(b) || row.contains(b) implies #[trigger] plan.contains(b) by {
            if prev.contains(b) {
                let i = choose|i: int| 0 <= i < prev.len() && prev[i] == b;
                assert(plan[i] == b);
            } else {
                let i = choose|i: int| 0 <= i < row.len() && row[i] == b;
                assert(plan[prev.len() + i] == b);
            }
        }
        assert forall|x: u32, y: u32| x < ex && y < ey implies #[trigger] plan.contains(wool_at(x, y, 0, wool))
            && plan.contains(wool_at(x, y, far_side(ez), wool)) by {
            if y < top {
                assert(prev.contains(wool_at(x, y, 0, wool)));
            } else {
                assert(row.contains(wool_at(x, y, 0, wool)));
            }
        }
        assert forall|z: u32, y: u32| z < ez && y < ey implies #[trigger] plan.contains(wool_at(0, y, z, wool))
            && plan.contains(wool_at(far_side(ex), y, z, wool)) by {
            if y < top {
                assert(prev.contains(wool_at(0, y, z, wool)));
            } else {
                assert(row.contains(wool_at(0, y, z, wool)));
            }
        }
    }
}

/// The blocks of a row of `n` lamps (none when `n` is not positive) with its minimum corner
/// at `base`: per lamp, two blocks of air over two more, calcite holding a lamp and two
/// calcite blocks behind them, and a lamp at the front.
pub open spec fn lights_plan(n: int, base: (u32, u32, u32), air: BlockTypeIndex, calcite: BlockTypeIndex, lamp: BlockTypeIndex) -> Seq<PlacedBlock>
    decreases (if n > 0 { n } else { 0 }),
{
    if n <= 0 {
        seq![]
    } else {
        let x = ((n - 1) * 2) as u32 + base.0;
        let (y, z) = (base.1, base.2);
        lights_plan(n - 1, base, air, calcite, lamp) + seq![
            PlacedBlock { x: x as u32, y, z, block: air },
            PlacedBlock { x: x as u32, y: (y + 1) as u32, z, block: air },
            PlacedBlock { x: (x + 1) as u32, y, z, block: air },
            PlacedBlock { x: (x + 1) as u32, y: (y + 1) as u32, z, block: air },
            PlacedBlock { x: x as u32, y, z: (z + 1) as u32, block: calcite },
            PlacedBlock { x: x as u32, y: (y + 1) as u32, z: (z + 1) as u32, block: lamp },
            PlacedBlock { x: (x + 1) as u32, y, z: (z + 1) as u32, block: calcite },
            PlacedBlock { x: (x + 1) as u32, y: (y + 1) as u32, z: (z + 1) as u32, block: calcite },
            PlacedBlock { x: x as u32, y, z: (z + 2) as u32, block: lamp },
        ]
    }
}

/// The blocks of a row of `n` levers (none when `n` is not positive) with its minimum corner
/// at `base`: per lever, air with a lever above it and two blocks of air beside them, four
/// calcite blocks behind, and one more calcite block at the front.
pub open spec fn switches_plan(n: int, base: (u32, u32, u32), air: BlockTypeIndex, calcite: BlockTypeIndex, switch: BlockTypeIndex) -> Seq<PlacedBlock>
    decreases (if n > 0 { n } else { 0 }),
{
    if n <= 0 {
        seq![]
    } else {
        let x = ((n - 1) * 2) as u32 + base.0;
        let (y, z) = (base.1, base.2);
        switches_plan(n - 1, base, air, calcite, switch) + seq![
            PlacedBlock { x: x as u32, y, z, block: air },
            PlacedBlock { x: x as u32, y: (y + 1) as u32, z, block: switch },
            PlacedBlock { x: (x + 1) as u32, y, z, block: air },
            PlacedBlock { x: (x + 1) as u32, y: (y + 1) as u32, z, block: air },
            PlacedBlock { x: x as u32, y, z: (z + 1) as u32, block: calcite },
            PlacedBlock { x: x as u32, y: (y + 1) as u32, z: (z + 1) as u32, block: calcite },
            PlacedBlock { x: (x + 1) as u32, y, z: (z + 1) as u32, block: calcite },
            PlacedBlock { x: (x + 1) as u32, y: (y + 1) as u32, z: (z + 1) as u32, block: calcite },
            PlacedBlock { x: x as u32, y, z: (z + 2) as u32, block: calcite },
        ]
    }
}

/// Position `i` of a row plan lies in the last unit of a row of `n` units: it belongs to unit
/// `n - 1`, at offset `i - 9 (n - 1)` inside it.
proof fn lemma_last_unit_index(n: int, i: int)
    requires
        n > 0,
        9 * (n - 1) <= i < 9 * n,
    ensures
        i / 9 == n - 1,
        i % 9 == i - 9 * (n - 1),
{
    assert(i / 9 == n - 1 && i % 9 == i - 9 * (n - 1)) by (nonlinear_arith)
        requires
            9 * (n - 1) <= i < 9 * n,
    {
    }
}

/// A row of `n` switches is nine blocks per switch, and the `i`-th block belongs to switch
/// `k = i / 9`: it stands in one of the two columns `base.x + 2k` and `base.x + 2k + 1`, so the
/// switches are two blocks apart along x, and the second block of each unit is its lever, at
/// `(base.x + 2k, base.y + 1, base.z)`. When the lever's block type differs from air and
/// calcite, the levers are the only blocks of that type.
pub proof fn lemma_switch_units(n: int, base: (u32, u32, u32), air: BlockTypeIndex, calcite: BlockTypeIndex, switch: BlockTypeIndex)
    requires
        n > 0,
        row_fits(n, base),
    ensures
        switches_plan(n, base, air, calcite, switch).len() == 9 * n,
        forall|i: int| 0 <= i < 9 * n ==> base.0 + 2 * (i / 9) <= #[trigger] switches_plan(n, base, air, calcite, switch)[i].x
            <= base.0 + 2 * (i / 9) + 1,
        forall|i: int| 0 <= i < 9 * n && i % 9 == 1 ==> #[trigger] switches_plan(n, base, air, calcite, switch)[i]
            == (PlacedBlock { x: (base.0 + 2 * (i / 9)) as u32, y: (base.1 + 1) as u32, z: base.2, block: switch }),
        switch != air && switch != calcite ==> forall|i: int| 0 <= i < 9 * n ==>
            (#[trigger] switches_plan(n, base, air, calcite, switch)[i].block == switch <==> i % 9 == 1),
    decreases n,
{
    let plan = switches_plan(n, base, air, calcite, switch);
    if n > 1 {
        lemma_switch_units(n - 1, base, air, calcite, switch);
    }
    let prev = switches_plan(n - 1, base, air, calcite, switch);
    assert(prev.len() == 9 * (n - 1));
    assert forall|i: int| 0 <= i < 9 * n implies {
        &&& base.0 + 2 * (i / 9) <= #[trigger] plan[i].x <= base.0 + 2 * (i / 9) + 1
        &&& i % 9 == 1 ==> plan[i] == (PlacedBlock { x: (base.0 + 2 * (i / 9)) as u32, y: (base.1 + 1) as u32, z: base.2, block: switch })
        &&& switch != air && switch != calcite ==> (plan[i].block == switch <==> i % 9 == 1)
    } by {
        if i < 9 * (n - 1) {
            assert(plan[i] == prev[i]);
        } else {
            lemma_last_unit_index(n, i);
        }
    }
}

/// A row of `n` lamps is nine blocks per lamp, and the `i`-th block belongs to lamp `k = i / 9`:
/// it stands in one of the two columns `base.x + 2k` and `base.x + 2k + 1`, so the lamps are
/// two blocks apart along x; the sixth block of each unit is a lamp at
/// `(base.x + 2k, base.y + 1, base.z + 1)` and the ninth a lamp at `(base.x + 2k, base.y, base.z + 2)`.
pub proof fn lemma_light_units(n: int, base: (u32, u32, u32), air: BlockTypeIndex, calcite: BlockTypeIndex, lamp: BlockTypeIndex)
    requires
        n > 0,
        row_fits(n, base),
    ensures
        lights_plan(n, base, air, calcite, lamp).len() == 9 * n,
        forall|i: int| 0 <= i < 9 * n ==> base.0 + 2 * (i / 9) <= #[trigger] lights_plan(n, base, air, calcite, lamp)[i].x
            <= base.0 + 2 * (i / 9) + 1,
        forall|i: int| 0 <= i < 9 * n && i % 9 == 5 ==> #[trigger] lights_plan(n, base, air, calcite, lamp)[i]
            == (PlacedBlock { x: (base.0 + 2 * (i / 9)) as u32, y: (base.1 + 1) as u32, z: (base.2 + 1) as u32, block: lamp }),
        forall|i: int| 0 <= i < 9 * n && i % 9 == 8 ==> #[trigger] lights_plan(n, base, air, calcite, lamp)[i]
            == (PlacedBlock { x: (base.0 + 2 * (i / 9)) as u32, y: base.1, z: (base.2 + 2) as u32, block: lamp }),
    decreases n,
{
    let plan = lights_plan(n, base, air, calcite, lamp);
    if n > 1 {
        lemma_light_units(n - 1, base, air, calcite, lamp);
    }
    let prev = lights_plan(n - 1, base, air, calcite, lamp);
    assert(prev.len() == 9 * (n - 1));
    assert forall|i: int| 0 <= i < 9 * n implies {
        &&& base.0 + 2 * (i / 9) <= #[trigger] plan[i].x <= base.0 + 2 * (i / 9) + 1
        &&& i % 9 == 5 ==> plan[i] == (PlacedBlock { x: (base.0 + 2 * (i / 9)) as u32, y: (base.1 + 1) as u32, z: (base.2 + 1) as u32, block: lamp })
        &&& i % 9 == 8 ==> plan[i] == (PlacedBlock { x: (base.0 + 2 * (i / 9)) as u32, y: base.1, z: (base.2 + 2) as u32, block: lamp })
    } by {
        if i < 9 * (n - 1) {
            assert(plan[i] == prev[i]);
        } else {
            lemma_last_unit_index(n, i);
        }
    }
}

/// A row of `n` two-block-wide units starting at `base` stays inside `u32` coordinates.
pub open spec fn row_fits(n: int, base: (u32, u32, u32)) -> bool {
    n > 0 ==> {
        &&& (n - 1) * 2 <= u32::MAX
        &&& ((n - 1) * 2) as u32 + base.0 + 1 <= u32::MAX
        &&& base.1 + 1 <= u32::MAX
        &&& base.2 + 2 <= u32::MAX
    }
}

/// The view of a block type with a name and no properties.
pub open spec fn plain_block(name: Seq<char>) -> BlockView {
    BlockView { name, properties: None }
}

/// The view of the lever used for switches: on a wall, facing north.
pub open spec fn lever_view() -> BlockView {
    BlockView {
        name: "minecraft:lever"@,
        properties: Some(Set::empty().insert(("face"@, crate::block_storage::PropertyValueView::String("wall"@)))
            .insert(("facing"@, crate::block_storage::PropertyValueView::String("north"@)))),
    }
}

/// Palette `p` after making sure it holds air, calcite, lamps, levers and black wool, added in
/// that order where missing.
pub open spec fn splatter_palette(p: Seq<BlockView>) -> Seq<BlockView> {
    palette_with(palette_with(palette_with(palette_with(palette_with(p,
        plain_block("minecraft:air"@)), plain_block("minecraft:calcite"@)), plain_block("minecraft:redstone_lamp"@)),
        lever_view()), plain_block("minecraft:black_wool"@))
}

/// Draws cells into an output whose palette holds the blocks it needs.
pub struct Splatter<'a> {
    pub structure_cache: &'a StructureCache,
    pub air: BlockTypeIndex,
    pub calcite: BlockTypeIndex,
    pub redstone_lamp: BlockTypeIndex,
    pub switch: BlockTypeIndex,
    pub wool: BlockTypeIndex,
}

/// `i` names a block of type `b` in palette `p`.
pub open spec fn names(p: Seq<BlockView>, i: BlockTypeIndex, b: BlockView) -> bool {
    i.0 < p.len() && p[i.0 as int] == b
}

impl<'a> Splatter<'a> {
    /// Add air, calcite, lamps, levers and black wool to the output's palette (where they are
    /// not there yet) and remember their indices.
    pub fn new(o: &mut BlockStorage, structure_cache: &'a StructureCache) -> (r: Splatter<'a>)
        requires
            old(o).wf(),
            old(o)@.palette.len() + 5 < u32::MAX,
        ensures
            final(o).wf(),
            final(o)@.extents == old(o)@.extents,
            final(o)@.blocks == old(o)@.blocks,
            old(o)@.palette.is_prefix_of(final(o)@.palette),
            final(o)@.palette.len() <= old(o)@.palette.len() + 5,
            final(o)@.palette == splatter_palette(old(o)@.palette),
            r.structure_cache == structure_cache,
            names(final(o)@.palette, r.air, plain_block("minecraft:air"@)),
            names(final(o)@.palette, r.calcite, plain_block("minecraft:calcite"@)),
            names(final(o)@.palette, r.redstone_lamp, plain_block("minecraft:redstone_lamp"@)),
            names(final(o)@.palette, r.switch, lever_view()),
            names(final(o)@.palette, r.wool, plain_block("minecraft:black_wool"@)),
    {
        let ghost p0 = o@.palette;
        let air = o.add_new_block_type(Block::new(String::from_str("minecraft:air")));
        let ghost p1 = o@.palette;
        let calcite = o.add_new_block_type(Block::new(String::from_str("minecraft:calcite")));
        let ghost p2 = o@.palette;
        let redstone_lamp = o.add_new_block_type(Block::new(String::from_str("minecraft:redstone_lamp")));
        let ghost p3 = o@.palette;
        let mut props: Vec<(String, PropertyValue)> = Vec::new();
        props.push((String::from_str("face"), PropertyValue::String(String::from_str("wall"))));
        props.push((String::from_str("facing"), PropertyValue::String(String::from_str("north"))));
        let lever = Block { name: String::from_str("minecraft:lever"), properties: Some(props) };
        proof {
            reveal_strlit("face");
            reveal_strlit("facing");
            assert("face"@.len() == 4);
            assert("facing"@.len() == 6);
            assert(props@[0].0@ == "face"@);
            assert(props@[1].0@ == "facing"@);
            assert(props@[0].0@ != props@[1].0@);
            assert(crate::block_storage::keys_distinct(props@));
            assert(lever.wf());
            let vs = props@.map_values(|e: (String, PropertyValue)| crate::block_storage::entry_view(e));
            assert(vs =~= seq![("face"@, crate::block_storage::PropertyValueView::String("wall"@)),
                ("facing"@, crate::block_storage::PropertyValueView::String("north"@))]);
            assert(vs.to_set() =~= lever_view().properties.unwrap()) by {
                assert forall|e| #[trigger] vs.to_set().contains(e) <==> lever_view().properties.unwrap().contains(e) by {
                    if vs.to_set().contains(e) {
                        assert(vs.contains(e));
                    }
                    if lever_view().properties.unwrap().contains(e) {
                        if e == vs[0] {
                            assert(vs.contains(vs[0]));
                        } else {
                            assert(vs.contains(vs[1]));
                        }
                    }
                }
            }
            assert(lever@ == lever_view());
        }
        let switch = o.add_new_block_type(lever);
        let ghost p4 = o@.palette;
        let wool = o.add_new_block_type(Block::new(String::from_str("minecraft:black_wool")));
        proof {
            assert(p0.is_prefix_of(p1));
            assert(p1.is_prefix_of(p2));
            assert(p2.is_prefix_of(p3));
            assert(p3.is_prefix_of(p4));
            assert(p4.is_prefix_of(o@.palette));
            assert(p0.is_prefix_of(o@.palette)) by {
                assert(o@.palette.subrange(0, p0.len() as int) =~= p0) by {
                    assert forall|i: int| 0 <= i < p0.len() implies o@.palette[i] == p0[i] by {
                        assert(p1[i] == p0[i]);
                        assert(p2[i] == p1[i]);
                        assert(p3[i] == p2[i]);
                        assert(p4[i] == p3[i]);
                    }
                }
            }
            assert(p1 == palette_with(p0, plain_block("minecraft:air"@)));
            assert(p2 == palette_with(p1, plain_block("minecraft:calcite"@)));
            assert(p3 == palette_with(p2, plain_block("minecraft:redstone_lamp"@)));
            assert(p4 == palette_with(p3, lever_view()));
            assert(o@.palette == palette_with(p4, plain_block("minecraft:black_wool"@)));
            assert(o@.palette[air.0 as int] == p1[air.0 as int]);
            assert(o@.palette[calcite.0 as int] == p2[calcite.0 as int]);
            assert(o@.palette[redstone_lamp.0 as int] == p3[redstone_lamp.0 as int]);
            assert(o@.palette[switch.0 as int] == p4[switch.0 as int]);
        }
        Splatter { structure_cache, air, calcite, redstone_lamp, switch, wool }
    }
}

/// Where a placed cell's minimum corner is (the origin when it has no position).
pub open spec fn cell_base(c: Cell) -> (u32, u32, u32) {
    match c.pos {
        Some(p) => (p.x, p.y, p.z),
        None => (0, 0, 0),
    }
}

/// How many units a lights or switches cell has: its parameter, 1 when it is missing.
pub open spec fn unit_count(c: Cell, name: Seq<char>) -> int {
    match c.param_lookup(name) {
        ParamLookup::Value(n) => n as int,
        _ => 1,
    }
}

/// The error for a failed placing.
pub open spec fn storage_error(e: Option<BlockStorageError>) -> Result<(), CellSplatError> {
    match e {
        Some(e) => Err(CellSplatError::Storage(e)),
        None => Ok(()),
    }
}

fn push_block(plan: &mut Vec<PlacedBlock>, x: u32, y: u32, z: u32, block: BlockTypeIndex)
    ensures
        final(plan)@ == old(plan)@.push(PlacedBlock { x, y, z, block }),
{
    plan.push(PlacedBlock { x, y, z, block });
}

impl<'a> Splatter<'a> {
    /// Draw a wool border around the whole output: on every row, the blocks along both
    /// faces of constant z, then along both faces of constant x.
    pub fn draw_border(&self, o: &mut BlockStorage) -> (r: Result<(), BlockStorageError>)
        requires
            old(o).wf(),
        ensures
            final(o).wf(),
            ({
                let e = old(o)@.extents;
                let run = run_placements(old(o)@, border_plan(e.0 as u32, e.1 as u32, e.2 as u32, self.wool));
                &&& final(o)@ == run.0
                &&& r == match run.1 {
                    Some(e) => Err::<(), BlockStorageError>(e),
                    None => Ok(()),
                }
            }),
    {
        let extents = o.extents();
        let ex = extents[0];
        let ey = extents[1];
        let ez = extents[2];
        let far_x = if ex == 0 { 0xffff_ffff } else { ex - 1 };
        let far_z = if ez == 0 { 0xffff_ffff } else { ez - 1 };
        let wool = self.wool;
        let mut plan: Vec<PlacedBlock> = Vec::new();
        let mut y: u32 = 0;
        while y < ey
            invariant
                y <= ey,
                plan@ == border_plan(ex, y, ez, wool),
                far_x == far_side(ex),
                far_z == far_side(ez),
            decreases ey - y,
        {
            let ghost start = plan@;
            let mut x: u32 = 0;
            proof {
                assert(border_x_part(0, ez, y, wool) =~= Seq::<PlacedBlock>::empty());
                assert(start + border_x_part(0, ez, y, wool) =~= start);
            }
            while x < ex
                invariant
                    x <= ex,
                    plan@ == start + border_x_part(x as int, ez, y, wool),
                    far_z == far_side(ez),
                decreases ex - x,
            {
                push_block(&mut plan, x, y, 0, wool);
                push_block(&mut plan, x, y, far_z, wool);
                proof {
                    assert(border_x_part(x + 1, ez, y, wool) =~= border_x_part(x as int, ez, y, wool)
                        .push(PlacedBlock { x, y, z: 0, block: wool }).push(PlacedBlock { x, y, z: far_z, block: wool }));
                    assert(plan@ =~= start + border_x_part(x + 1, ez, y, wool));
                }
                x = x + 1;
            }
            let ghost mid = plan@;
            let mut z: u32 = 0;
            proof {
                assert(border_z_part(0, ex, y, wool) =~= Seq::<PlacedBlock>::empty());
                assert(mid + border_z_part(0, ex, y, wool) =~= mid);
            }
            while z < ez
                invariant
                    z <= ez,
                    plan@ == mid + border_z_part(z as int, ex, y, wool),
                    far_x == far_side(ex),
                decreases ez - z,
            {
                push_block(&mut plan, 0, y, z, wool);
                push_block(&mut plan, far_x, y, z, wool);
                proof {
                    assert(border_z_part(z + 1, ex, y, wool) =~= border_z_part(z as int, ex, y, wool)
                        .push(PlacedBlock { x: 0, y, z, block: wool }).push(PlacedBlock { x: far_x, y, z, block: wool }));
                    assert(plan@ =~= mid + border_z_part(z + 1, ex, y, wool));
                }
                z = z + 1;
            }
            proof {
                assert(plan@ =~= border_plan(ex, (y + 1) as u32, ez, wool));
            }
            y = y + 1;
        }
        apply_placements(o, &plan)
    }

    /// Draw a row of lamps for a lights cell: as many as its `NLIGHT` parameter says (one
    /// when it has none), two blocks apart along x from the cell's position.
    pub fn splat_lights(&self, cell: &Cell, o: &mut BlockStorage) -> (r: Result<(), CellSplatError>)
        requires
            old(o).wf(),
            row_fits(unit_count(*cell, "NLIGHT"@), cell_base(*cell)),
        ensures
            final(o).wf(),
            cell.param_lookup("NLIGHT"@) is Unparsable ==> (r matches Err(CellSplatError::Param(_))) && final(o)@ == old(o)@,
            !(cell.param_lookup("NLIGHT"@) is Unparsable) ==> ({
                let run = run_placements(old(o)@, lights_plan(unit_count(*cell, "NLIGHT"@), cell_base(*cell),
                    self.air, self.calcite, self.redstone_lamp));
                final(o)@ == run.0 && r == storage_error(run.1)
            }),
    {
        let n = match cell.get_param_i64_with_default("NLIGHT", 1) {
            Ok(n) => n,
            Err(e) => return Err(CellSplatError::Param(e)),
        };
        let base: (u32, u32, u32) = match cell.pos {
            Some(p) => (p.x, p.y, p.z),
            None => (0, 0, 0),
        };
        let (air, calcite, lamp) = (self.air, self.calcite, self.redstone_lamp);
        let mut plan: Vec<PlacedBlock> = Vec::new();
        let mut light: i64 = 0;
        while light < n
            invariant
                0 <= light,
                n > 0 ==> light <= n,
                n <= 0 ==> light == 0,
                row_fits(n as int, base),
                plan@ == lights_plan(light as int, base, air, calcite, lamp),
            decreases n - light,
        {
            let x = (light * 2) as u32 + base.0;
            let (y, z) = (base.1, base.2);
            push_block(&mut plan, x, y, z, air);
            push_block(&mut plan, x, y + 1, z, air);
            push_block(&mut plan, x + 1, y, z, air);
            push_block(&mut plan, x + 1, y + 1, z, air);
            push_block(&mut plan, x, y, z + 1, calcite);
            push_block(&mut plan, x, y + 1, z + 1, lamp);
            push_block(&mut plan, x + 1, y, z + 1, calcite);
            push_block(&mut plan, x + 1, y + 1, z + 1, calcite);
            push_block(&mut plan, x, y, z + 2, lamp);
            proof {
                assert(plan@ =~= lights_plan(light + 1, base, air, calcite, lamp));
            }
            light = light + 1;
        }
        match apply_placements(o, &plan) {
            Ok(()) => Ok(()),
            Err(e) => Err(CellSplatError::Storage(e)),
        }
    }

    /// Draw a row of levers for a switches cell: as many as its `NSWITCH` parameter says (one
    /// when it has none), two blocks apart along x from the cell's position.
    pub fn splat_switches(&self, cell: &Cell, o: &mut BlockStorage) -> (r: Result<(), CellSplatError>)
        requires
            old(o).wf(),
            row_fits(unit_count(*cell, "NSWITCH"@), cell_base(*cell)),
        ensures
            final(o).wf(),
            cell.param_lookup("NSWITCH"@) is Unparsable ==> (r matches Err(CellSplatError::Param(_))) && final(o)@ == old(o)@,
            !(cell.param_lookup("NSWITCH"@) is Unparsable) ==> ({
                let run = run_placements(old(o)@, switches_plan(unit_count(*cell, "NSWITCH"@), cell_base(*cell),
                    self.air, self.calcite, self.switch));
                final(o)@ == run.0 && r == storage_error(run.1)
            }),
    {
        let n = match cell.get_param_i64_with_default("NSWITCH", 1) {
            Ok(n) => n,
            Err(e) => return Err(CellSplatError::Param(e)),
        };
        let base: (u32, u32, u32) = match cell.pos {
            Some(p) => (p.x, p.y, p.z),
            None => (0, 0, 0),
        };
        let (air, calcite, switch) = (self.air, self.calcite, self.switch);
        let mut plan: Vec<PlacedBlock> = Vec::new();
        let mut unit: i64 = 0;
        while unit < n
            invariant
                0 <= unit,
                n > 0 ==> unit <= n,
                n <= 0 ==> unit == 0,
                row_fits(n as int, base),
                plan@ == switches_plan(unit as int, base, air, calcite, switch),
            decreases n - unit,
        {
            let x = (unit * 2) as u32 + base.0;
            let (y, z) = (base.1, base.2);
            push_block(&mut plan, x, y, z, air);
            push_block(&mut plan, x, y + 1, z, switch);
            push_block(&mut plan, x + 1, y, z, air);
            push_block(&mut plan, x + 1, y + 1, z, air);
            push_block(&mut plan, x, y, z + 1, calcite);
            push_block(&mut plan, x, y + 1, z + 1, calcite);
            push_block(&mut plan, x + 1, y, z + 1, calcite);
            push_block(&mut plan, x + 1, y + 1, z + 1, calcite);
            push_block(&mut plan, x, y, z + 2, calcite);
            proof {
                assert(plan@ =~= switches_plan(unit + 1, base, air, calcite, switch));
            }
            unit = unit + 1;
        }
        match apply_placements(o, &plan) {
            Ok(()) => Ok(()),
            Err(e) => Err(CellSplatError::Storage(e)),
        }
    }
}

/// Drawing one structure block, with the structure's minimum corner at `base` and `map`
/// giving the output palette index of each structure palette entry: the storage after it, or
/// the error that stops the drawing. Coordinates are checked in the order x, y, z, then the
/// palette entry, then the bounds.
pub open spec fn structure_step(v: BlockStorageView, b: StructureBlock, base: (u32, u32, u32), map: Seq<BlockTypeIndex>)
    -> (BlockStorageView, Option<CellSplatError>)
{
    let x = b.pos@[0] + base.0;
    let y = b.pos@[1] + base.1;
    let z = b.pos@[2] + base.2;
    if x < 0 {
        (v, Some(CellSplatError::NegativeCoordinate(x as i32)))
    } else if y < 0 {
        (v, Some(CellSplatError::NegativeCoordinate(y as i32)))
    } else if z < 0 {
        (v, Some(CellSplatError::NegativeCoordinate(z as i32)))
    } else if !(0 <= b.state < map.len()) {
        (v, Some(CellSplatError::InvalidBlockState(b.state)))
    } else {
        let r = place_step(v, PlacedBlock { x: x as u32, y: y as u32, z: z as u32, block: map[b.state as int] });
        (r.0, match r.1 {
            Some(e) => Some(CellSplatError::Storage(e)),
            None => None,
        })
    }
}

/// Drawing the structure blocks `bs` in order, stopping at the first error.
pub open spec fn run_structure(v: BlockStorageView, bs: Seq<StructureBlock>, base: (u32, u32, u32), map: Seq<BlockTypeIndex>)
    -> (BlockStorageView, Option<CellSplatError>)
    decreases bs.len(),
{
    if bs.len() == 0 {
        (v, None)
    } else {
        let prev = run_structure(v, bs.drop_last(), base, map);
        if prev.1 is Some {
            prev
        } else {
            structure_step(prev.0, bs.last(), base, map)
        }
    }
}

proof fn lemma_run_structure_persists(v: BlockStorageView, bs: Seq<StructureBlock>, base: (u32, u32, u32), map: Seq<BlockTypeIndex>, k: int)
    requires
        0 <= k <= bs.len(),
        run_structure(v, bs.take(k), base, map).1 is Some,
    ensures
        run_structure(v, bs, base, map) == run_structure(v, bs.take(k), base, map),
    decreases bs.len(),
{
    if k == bs.len() {
        assert(bs.take(k) =~= bs);
    } else {
        assert(bs.drop_last().take(k) =~= bs.take(k));
        lemma_run_structure_persists(v, bs.drop_last(), base, map, k);
    }
}

/// The structure's block positions, moved by `base`, stay inside `i32`.
pub open spec fn structure_fits(bs: Seq<StructureBlock>, base: (u32, u32, u32)) -> bool {
    &&& base.0 <= i32::MAX && base.1 <= i32::MAX && base.2 <= i32::MAX
    &&& forall|i: int| 0 <= i < bs.len() ==> {
        &&& i32::MIN <= (#[trigger] bs[i]).pos@[0] + base.0 <= i32::MAX
        &&& i32::MIN <= bs[i].pos@[1] + base.1 <= i32::MAX
        &&& i32::MIN <= bs[i].pos@[2] + base.2 <= i32::MAX
    }
}

/// Converts a coordinate to `u32`, refusing negative ones.
fn to_block_coordinate(v: i32) -> (r: Result<u32, CellSplatError>)
    ensures
        v >= 0 ==> r == Ok::<u32, CellSplatError>(v as u32),
        v < 0 ==> (match r {
            Err(CellSplatError::NegativeCoordinate(w)) => w == v,
            _ => false,
        }),
{
    if v < 0 {
        Err(CellSplatError::NegativeCoordinate(v))
    } else {
        Ok(v as u32)
    }
}

impl<'a> Splatter<'a> {
    /// Draw a structure cell: every block of its structure, moved to the cell's position, in
    /// the structure's order.
    #[verifier::rlimit(40)]
    pub fn splat_structure_cell(&self, cell: &Cell, o: &mut BlockStorage) -> (r: Result<(), CellSplatError>)
        requires
            old(o).wf(),
            assoc_lookup(self.structure_cache.structures@, cell.ty@) matches Some(g)
                ==> structure_fits(g.structure.blocks@, cell_base(*cell)),
        ensures
            final(o).wf(),
            match assoc_lookup(self.structure_cache.structures@, cell.ty@) {
                None => (r matches Err(CellSplatError::UnknownCellType)) && final(o)@ == old(o)@,
                Some(g) => {
                    let run = run_structure(old(o)@, g.structure.blocks@, cell_base(*cell), g.palette_palette_map@);
                    &&& final(o)@ == run.0
                    &&& match run.1 {
                        Some(e) => r == Err::<(), CellSplatError>(e),
                        None => r is Ok,
                    }
                },
            },
    {
        let gate = match self.structure_cache.get(cell.ty.as_str()) {
            Some(g) => g,
            None => return Err(CellSplatError::UnknownCellType),
        };
        let base: (u32, u32, u32) = match cell.pos {
            Some(p) => (p.x, p.y, p.z),
            None => (0, 0, 0),
        };
        let blocks = &gate.structure.blocks;
        let map = &gate.palette_palette_map;
        let ghost v0 = o@;
        let n = blocks.len();
        let mut i: usize = 0;
        while i < n
            invariant
                o.wf(),
                n == blocks@.len(),
                i <= n,
                v0 == old(o)@,
                assoc_lookup(self.structure_cache.structures@, cell.ty@) == Some(*gate),
                blocks@ == gate.structure.blocks@,
                map@ == gate.palette_palette_map@,
                base == cell_base(*cell),
                structure_fits(blocks@, base),
                run_structure(v0, blocks@.take(i as int), base, map@) == (o@, None::<CellSplatError>),
            decreases n - i,
        {
            let sb = &blocks[i];
            let ghost before = o@;
            proof {
                assert(blocks@.take(i + 1).drop_last() =~= blocks@.take(i as int));
                assert(blocks@.take(i + 1).last() == *sb);
                assert(run_structure(v0, blocks@.take(i + 1), base, map@) == structure_step(before, *sb, base, map@));
                assert(structure_fits(blocks@, base));
                assert(i32::MIN <= blocks@[i as int].pos@[0] + base.0 <= i32::MAX);
                assert(i32::MIN <= blocks@[i as int].pos@[1] + base.1 <= i32::MAX);
                assert(i32::MIN <= blocks@[i as int].pos@[2] + base.2 <= i32::MAX);
            }
            let x = match to_block_coordinate(sb.pos[0] + (base.0 as i32)) {
                Ok(x) => x,
                Err(e) => {
                    proof { lemma_run_structure_persists(v0, blocks@, base, map@, i + 1); }
                    return Err(e);
                },
            };
            proof {
                assert(sb.pos@[0] + base.0 >= 0);
            }
            let y = match to_block_coordinate(sb.pos[1] + (base.1 as i32)) {
                Ok(y) => y,
                Err(e) => {
                    proof {
                        assert(sb.pos@[1] + base.1 < 0);
                        assert(structure_step(before, *sb, base, map@).1 == Some(e));
                        lemma_run_structure_persists(v0, blocks@, base, map@, i + 1);
                    }
                    return Err(e);
                },
            };
            proof {
                assert(sb.pos@[1] + base.1 >= 0);
            }
            let z = match to_block_coordinate(sb.pos[2] + (base.2 as i32)) {
                Ok(z) => z,
                Err(e) => {
                    proof {
                        assert(sb.pos@[2] + base.2 < 0);
                        assert(structure_step(before, *sb, base, map@).1 == Some(e));
                        lemma_run_structure_persists(v0, blocks@, base, map@, i + 1);
                    }
                    return Err(e);
                },
            };
            if sb.state < 0 || sb.state as usize >= map.len() {
                proof { lemma_run_structure_persists(v0, blocks@, base, map@, i + 1); }
                return Err(CellSplatError::InvalidBlockState(sb.state));
            }
            let b = map[sb.state as usize];
            match o.get_block_mut(x, y, z) {
                Ok(slot) => {
                    *slot = b;
                },
                Err(e) => {
                    proof { lemma_run_structure_persists(v0, blocks@, base, map@, i + 1); }
                    return Err(CellSplatError::Storage(e));
                },
            }
            i = i + 1;
        }
        proof {
            assert(blocks@.take(n as int) =~= blocks@);
        }
        Ok(())
    }

    /// Draw a placed cell with its minimum corner at its position: lights and switches cells
    /// as rows of lamps and levers, any other cell from its structure.
    pub fn splat_cell(&self, cell: &Cell, o: &mut BlockStorage) -> (r: Result<(), CellSplatError>)
        requires
            old(o).wf(),
            cell.ty@ == "MCPNR_LIGHTS"@ ==> row_fits(unit_count(*cell, "NLIGHT"@), cell_base(*cell)),
            cell.ty@ == "MCPNR_SWITCHES"@ ==> row_fits(unit_count(*cell, "NSWITCH"@), cell_base(*cell)),
            assoc_lookup(self.structure_cache.structures@, cell.ty@) matches Some(g)
                ==> structure_fits(g.structure.blocks@, cell_base(*cell)),
        ensures
            final(o).wf(),
            cell.ty@ == "MCPNR_LIGHTS"@ ==> if cell.param_lookup("NLIGHT"@) is Unparsable {
                (r matches Err(CellSplatError::Param(_))) && final(o)@ == old(o)@
            } else {
                let run = run_placements(old(o)@, lights_plan(unit_count(*cell, "NLIGHT"@), cell_base(*cell),
                    self.air, self.calcite, self.redstone_lamp));
                final(o)@ == run.0 && r == storage_error(run.1)
            },
            cell.ty@ != "MCPNR_LIGHTS"@ && cell.ty@ == "MCPNR_SWITCHES"@ ==> if cell.param_lookup("NSWITCH"@) is Unparsable {
                (r matches Err(CellSplatError::Param(_))) && final(o)@ == old(o)@
            } else {
                let run = run_placements(old(o)@, switches_plan(unit_count(*cell, "NSWITCH"@), cell_base(*cell),
                    self.air, self.calcite, self.switch));
                final(o)@ == run.0 && r == storage_error(run.1)
            },
            cell.ty@ != "MCPNR_LIGHTS"@ && cell.ty@ != "MCPNR_SWITCHES"@ ==> match assoc_lookup(self.structure_cache.structures@, cell.ty@) {
                None => (r matches Err(CellSplatError::UnknownCellType)) && final(o)@ == old(o)@,
                Some(g) => {
                    let run = run_structure(old(o)@, g.structure.blocks@, cell_base(*cell), g.palette_palette_map@);
                    &&& final(o)@ == run.0
                    &&& match run.1 {
                        Some(e) => r == Err::<(), CellSplatError>(e),
                        None => r is Ok,
                    }
                },
            },
    {
        if str_eq(cell.ty.as_str(), "MCPNR_LIGHTS") {
            self.splat_lights(cell, o)
        } else if str_eq(cell.ty.as_str(), "MCPNR_SWITCHES") {
            self.splat_switches(cell, o)
        } else {
            self.splat_structure_cell(cell, o)
        }
    }
}


/// Drawing cell `c` with splatter `s` on storage `v`: the storage afterwards, and whether the
/// drawing succeeded (as [`Splatter::splat_cell`] describes it).
pub open spec fn cell_outcome<'a>(s: Splatter<'a>, v: BlockStorageView, c: Cell) -> (BlockStorageView, bool) {
    if c.ty@ == "MCPNR_LIGHTS"@ {
        if c.param_lookup("NLIGHT"@) is Unparsable {
            (v, false)
        } else {
            let run = run_placements(v, lights_plan(unit_count(c, "NLIGHT"@), cell_base(c), s.air, s.calcite, s.redstone_lamp));
            (run.0, run.1 is None)
        }
    } else if c.ty@ == "MCPNR_SWITCHES"@ {
        if c.param_lookup("NSWITCH"@) is Unparsable {
            (v, false)
        } else {
            let run = run_placements(v, switches_plan(unit_count(c, "NSWITCH"@), cell_base(c), s.air, s.calcite, s.switch));
            (run.0, run.1 is None)
        }
    } else {
        match assoc_lookup(s.structure_cache.structures@, c.ty@) {
            None => (v, false),
            Some(g) => {
                let run = run_structure(v, g.structure.blocks@, cell_base(c), g.palette_palette_map@);
                (run.0, run.1 is None)
            },
        }
    }
}

/// Drawing the cells `cs` in order, stopping at the first that fails.
pub open spec fn cells_outcome<'a>(s: Splatter<'a>, v: BlockStorageView, cs: Seq<Cell>) -> (BlockStorageView, bool)
    decreases cs.len(),
{
    if cs.len() == 0 {
        (v, true)
    } else {
        let prev = cells_outcome(s, v, cs.drop_last());
        if !prev.1 {
            prev
        } else {
            cell_outcome(s, prev.0, cs.last())
        }
    }
}

/// Drawing cell `c` keeps its coordinates within range.
pub open spec fn splat_fits(sc: StructureCache, c: Cell) -> bool {
    &&& c.ty@ == "MCPNR_LIGHTS"@ ==> row_fits(unit_count(c, "NLIGHT"@), cell_base(c))
    &&& c.ty@ == "MCPNR_SWITCHES"@ ==> row_fits(unit_count(c, "NSWITCH"@), cell_base(c))
    &&& assoc_lookup(sc.structures@, c.ty@) matches Some(g) ==> structure_fits(g.structure.blocks@, cell_base(c))
}

fn row_fits_check(n: i64, base: (u32, u32, u32)) -> (r: bool)
    ensures
        r == row_fits(n as int, base),
{
    if n <= 0 {
        return true;
    }
    let w: i128 = (n as i128 - 1) * 2;
    w <= u32::MAX as i128 && w + base.0 as i128 + 1 <= u32::MAX as i128 && base.1 as i128 + 1 <= u32::MAX as i128
        && base.2 as i128 + 2 <= u32::MAX as i128
}

fn structure_fits_check(bs: &Vec<StructureBlock>, base: (u32, u32, u32)) -> (r: bool)
    ensures
        r == structure_fits(bs@, base),
{
    if base.0 > i32::MAX as u32 || base.1 > i32::MAX as u32 || base.2 > i32::MAX as u32 {
        return false;
    }
    let n = bs.len();
    let mut i: usize = 0;
    while i < n
        invariant
            n == bs@.len(),
            i <= n,
            forall|j: int| 0 <= j < i ==> {
                &&& i32::MIN <= (#[trigger] bs@[j]).pos@[0] + base.0 <= i32::MAX
                &&& i32::MIN <= bs@[j].pos@[1] + base.1 <= i32::MAX
                &&& i32::MIN <= bs@[j].pos@[2] + base.2 <= i32::MAX
            },
        decreases n - i,
    {
        let p = bs[i].pos;
        let x = p[0] as i64 + base.0 as i64;
        let y = p[1] as i64 + base.1 as i64;
        let z = p[2] as i64 + base.2 as i64;
        if x < i32::MIN as i64 || x > i32::MAX as i64 || y < i32::MIN as i64 || y > i32::MAX as i64
            || z < i32::MIN as i64 || z > i32::MAX as i64 {
            return false;
        }
        i = i + 1;
    }
    true
}

/// Whether drawing `cell` with the structures of `sc` keeps every coordinate within range
/// (see [`splat_fits`]).
pub fn check_splat_fits(sc: &StructureCache, cell: &Cell) -> (r: bool)
    ensures
        r == splat_fits(*sc, *cell),
{
    let base: (u32, u32, u32) = match cell.pos {
        Some(p) => (p.x, p.y, p.z),
        None => (0, 0, 0),
    };
    proof {
        reveal_strlit("MCPNR_LIGHTS");
        reveal_strlit("MCPNR_SWITCHES");
    }
    let lights = if str_eq(cell.ty.as_str(), "MCPNR_LIGHTS") {
        let n: i64 = match cell.get_param_i64_with_default("NLIGHT", 1) {
            Ok(n) => n,
            Err(_) => 1,
        };
        row_fits_check(n, base)
    } else {
        true
    };
    let switches = if str_eq(cell.ty.as_str(), "MCPNR_SWITCHES") {
        let n: i64 = match cell.get_param_i64_with_default("NSWITCH", 1) {
            Ok(n) => n,
            Err(_) => 1,
        };
        row_fits_check(n, base)
    } else {
        true
    };
    let structure = match sc.get(cell.ty.as_str()) {
        Some(g) => structure_fits_check(&g.structure.blocks, base),
        None => true,
    };
    lights && switches && structure
}

impl<'a> Splatter<'a> {
    /// Draw the cells `cells` in order, stopping at the first that fails.
    pub fn splat_cells(&self, cells: &Vec<Cell>, o: &mut BlockStorage) -> (r: Result<(), CellSplatError>)
        requires
            old(o).wf(),
            forall|i: int| 0 <= i < cells@.len() ==> splat_fits(*self.structure_cache, #[trigger] cells@[i]),
        ensures
            final(o).wf(),
            final(o)@ == cells_outcome(*self, old(o)@, cells@).0,
            r is Ok == cells_outcome(*self, old(o)@, cells@).1,
    {
        let n = cells.len();
        let mut i: usize = 0;
        proof {
            assert(cells@.take(0) =~= Seq::<Cell>::empty());
        }
        while i < n
            invariant
                n == cells@.len(),
                i <= n,
                forall|j: int| 0 <= j < n ==> splat_fits(*self.structure_cache, #[trigger] cells@[j]),
                o.wf(),
                o@ == cells_outcome(*self, old(o)@, cells@.take(i as int)).0,
                cells_outcome(*self, old(o)@, cells@.take(i as int)).1,
            decreases n - i,
        {
            proof {
                assert(cells@.take(i + 1).drop_last() =~= cells@.take(i as int));
                assert(cells@.take(i + 1).last() == cells@[i as int]);
                assert(splat_fits(*self.structure_cache, cells@[i as int]));
                reveal_strlit("MCPNR_LIGHTS");
                reveal_strlit("MCPNR_SWITCHES");
            }
            let r = self.splat_cell(&cells[i], o);
            if r.is_err() {
                proof {
                    lemma_cells_outcome_stops(*self, old(o)@, cells@, i as int + 1);
                }
                return r;
            }
            i = i + 1;
        }
        proof {
            assert(cells@.take(n as int) =~= cells@);
        }
        Ok(())
    }
}

proof fn lemma_cells_outcome_stops<'a>(s: Splatter<'a>, v: BlockStorageView, cs: Seq<Cell>, k: int)
    requires
        0 <= k <= cs.len(),
        !cells_outcome(s, v, cs.take(k)).1,
    ensures
        cells_outcome(s, v, cs) == cells_outcome(s, v, cs.take(k)),
    decreases cs.len() - k,
{
    if k < cs.len() {
        assert(cs.take(k + 1).drop_last() =~= cs.take(k));
        lemma_cells_outcome_stops(s, v, cs, k + 1);
    } else {
        assert(cs.take(k) =~= cs);
    }
}

proof fn lemma_run_placements_extents(v: BlockStorageView, ws: Seq<PlacedBlock>)
    ensures
        run_placements(v, ws).0.extents == v.extents,
    decreases ws.len(),
{
    if ws.len() > 0 {
        lemma_run_placements_extents(v, ws.drop_last());
    }
}

proof fn lemma_run_structure_extents(v: BlockStorageView, bs: Seq<StructureBlock>, base: (u32, u32, u32), map: Seq<BlockTypeIndex>)
    ensures
        run_structure(v, bs, base, map).0.extents == v.extents,
    decreases bs.len(),
{
    if bs.len() > 0 {
        lemma_run_structure_extents(v, bs.drop_last(), base, map);
    }
}

proof fn lemma_cells_outcome_extents<'a>(s: Splatter<'a>, v: BlockStorageView, cs: Seq<Cell>)
    ensures
        cells_outcome(s, v, cs).0.extents == v.extents,
    decreases cs.len(),
{
    if cs.len() > 0 {
        lemma_cells_outcome_extents(s, v, cs.drop_last());
        let w = cells_outcome(s, v, cs.drop_last()).0;
        let c = cs.last();
        lemma_run_placements_extents(w, lights_plan(unit_count(c, "NLIGHT"@), cell_base(c), s.air, s.calcite, s.redstone_lamp));
        lemma_run_placements_extents(w, switches_plan(unit_count(c, "NSWITCH"@), cell_base(c), s.air, s.calcite, s.switch));
        match assoc_lookup(s.structure_cache.structures@, c.ty@) {
            Some(g) => lemma_run_structure_extents(w, g.structure.blocks@, cell_base(c), g.palette_palette_map@),
            None => {},
        }
    }
}

/// The splatter `s` draws with block types of palette `p`.
pub open spec fn splatter_in<'a>(s: Splatter<'a>, p: Seq<BlockView>) -> bool {
    &&& names(p, s.air, plain_block("minecraft:air"@))
    &&& names(p, s.calcite, plain_block("minecraft:calcite"@))
    &&& names(p, s.redstone_lamp, plain_block("minecraft:redstone_lamp"@))
    &&& names(p, s.switch, lever_view())
    &&& names(p, s.wool, plain_block("minecraft:black_wool"@))
}

/// Draw a placed design: a wool border around the output, then every cell in order (see
/// [`Splatter::draw_border`] and [`Splatter::splat_cells`]), after adding the block types
/// the drawing needs to the palette (see [`Splatter::new`]).
pub fn do_splat(design: &PlacedDesign, structure_cache: &StructureCache, o: &mut BlockStorage) -> (r: Result<(), CellSplatError>)
    requires
        old(o).wf(),
        old(o)@.palette.len() + 5 < u32::MAX,
        forall|i: int| 0 <= i < design.cells@.len() ==> splat_fits(*structure_cache, #[trigger] design.cells@[i]),
    ensures
        final(o).wf(),
        final(o)@.extents == old(o)@.extents,
        exists|s: Splatter, mid: BlockStorageView| {
            &&& s.structure_cache == structure_cache
            &&& #[trigger] splatter_in(s, mid.palette)
            &&& mid.extents == old(o)@.extents
            &&& mid.blocks == old(o)@.blocks
            &&& old(o)@.palette.is_prefix_of(mid.palette)
            &&& ({
                let e = mid.extents;
                let border = run_placements(mid, border_plan(e.0 as u32, e.1 as u32, e.2 as u32, s.wool));
                match border.1 {
                    Some(err) => r == Err::<(), CellSplatError>(CellSplatError::Storage(err)) && final(o)@ == border.0,
                    None => final(o)@ == cells_outcome(s, border.0, design.cells@).0
                        && r is Ok == cells_outcome(s, border.0, design.cells@).1,
                }
            })
        },
{
    let splatter = Splatter::new(o, structure_cache);
    let ghost mid = o@;
    proof {
        assert(splatter_in(splatter, mid.palette));
    }
    let r = match splatter.draw_border(o) {
        Err(e) => Err(CellSplatError::Storage(e)),
        Ok(()) => splatter.splat_cells(&design.cells, o),
    };
    proof {
        assert(splatter_in(splatter, mid.palette));
        let e = mid.extents;
        let border = run_placements(mid, border_plan(e.0 as u32, e.1 as u32, e.2 as u32, splatter.wool));
        lemma_run_placements_extents(mid, border_plan(e.0 as u32, e.1 as u32, e.2 as u32, splatter.wool));
        lemma_cells_outcome_extents(splatter, border.0, design.cells@);
    }
    r
}

} // verus!
