//! Turning one routed wire grid cell into blocks: redstone dust on calcite along a layer, and
//! staircases of dust between the local interconnect layer and the first metal layer.

use vstd::prelude::*;

use crate::block_storage::{Direction, Block, BlockStorage, BlockStorageError, BlockStorageView, BlockTypeIndex, BlockView};
use crate::detail_routing::{compact_idx, spec_next, y_idx, Layer};
use vstd::string::StringExecFns;

verus! {

/// Wire position. This is the block coordinate divided by the wire grid scale; `y` runs along
/// the block z axis.
#[derive(Clone, Copy, Debug, PartialEq, Eq, Structural)]
pub struct WirePosition {
    pub x: i32,
    pub y: i32,
}

/// Whether a direction lies in the horizontal plane.
pub open spec fn is_planar(d: Direction) -> bool {
    ||| d == Direction::North
    ||| d == Direction::South
    ||| d == Direction::East
    ||| d == Direction::West
}

/// The wire position one cell away in the planar direction `d`, as mathematical integers.
pub open spec fn wire_step(p: (int, int), d: Direction) -> (int, int) {
    match d {
        Direction::North => (p.0, p.1 - 1),
        Direction::South => (p.0, p.1 + 1),
        Direction::East => (p.0 + 1, p.1),
        Direction::West => (p.0 - 1, p.1),
        _ => p,
    }
}

/// Both coordinates of `p` lie inside the range of `i32`.
pub open spec fn wire_fits(p: (int, int)) -> bool {
    i32::MIN <= p.0 <= i32::MAX && i32::MIN <= p.1 <= i32::MAX
}

/// The wire position with the given coordinates.
pub open spec fn wire_at(p: (int, int)) -> WirePosition {
    WirePosition { x: p.0 as i32, y: p.1 as i32 }
}

/// Errors raised while turning a wire segment into blocks.
#[derive(Debug, PartialEq, Eq, Structural)]
pub enum SplatError {
    /// The two layers of the segment are not neighbours in the layer stack.
    LayersNotAdjacent,
    /// The segment changes tier, which needs an inter-tier via.
    TierChangeUnsupported,
    /// The pair of directions (in, out) has no block pattern.
    UnsupportedDirections(Direction, Direction),
    /// A wire position cannot be moved vertically.
    CannotOffset(Direction),
    /// A block coordinate came out negative.
    NegativeCoordinate(i32),
    /// A block falls outside the storage.
    OutOfBounds(BlockStorageError),
    /// Vias between two metal layers have no block pattern.
    MetalViaUnsupported,
}

impl WirePosition {
    pub fn new(x: i32, y: i32) -> (r: WirePosition)
        ensures
            r == (WirePosition { x, y }),
    {
        WirePosition { x, y }
    }

    /// The coordinates as mathematical integers.
    pub open spec fn key(self) -> (int, int) {
        (self.x as int, self.y as int)
    }

    /// The neighbouring wire position in direction `d`; vertical directions are refused.
    pub fn offset(self, d: Direction) -> (r: Result<WirePosition, SplatError>)
        requires
            is_planar(d) ==> wire_fits(wire_step(self.key(), d)),
        ensures
            is_planar(d) ==> r == Ok::<WirePosition, SplatError>(wire_at(wire_step(self.key(), d))),
            !is_planar(d) ==> r == Err::<WirePosition, SplatError>(SplatError::CannotOffset(d)),
    {
        match d {
            Direction::North => Ok(WirePosition::new(self.x, self.y - 1)),
            Direction::South => Ok(WirePosition::new(self.x, self.y + 1)),
            Direction::East => Ok(WirePosition::new(self.x + 1, self.y)),
            Direction::West => Ok(WirePosition::new(self.x - 1, self.y)),
            _ => Err(SplatError::CannotOffset(d)),
        }
    }
}

/// A routing layer of a given tier.
#[derive(Clone, Copy, Debug, PartialEq, Eq, Structural)]
pub struct WireTierLayer {
    pub tier: u32,
    pub layer: Layer,
}

/// Position of a tier-layer in the whole layer stack, bottom to top.
pub open spec fn stack_index(t: WireTierLayer) -> int {
    t.tier * 5 + compact_idx(t.layer)
}

/// Whether `a` comes before `b` in (tier, layer) order.
pub open spec fn spec_precedes(a: WireTierLayer, b: WireTierLayer) -> bool {
    a.tier < b.tier || (a.tier == b.tier && compact_idx(a.layer) < compact_idx(b.layer))
}

/// Adjacency of two tier-layers, checked from the lower one `lo` to the higher one `hi`.
pub open spec fn adjacent_upward(lo: WireTierLayer, hi: WireTierLayer) -> bool {
    if hi.tier == lo.tier {
        lo.layer == hi.layer || spec_next(lo.layer) == hi.layer
    } else if hi.tier == lo.tier + 1 {
        lo.layer == Layer::M3 && hi.layer == Layer::LI
    } else {
        false
    }
}

/// Whether a wire can pass directly between two tier-layers.
pub open spec fn spec_adjacent(a: WireTierLayer, b: WireTierLayer) -> bool {
    if spec_precedes(b, a) {
        adjacent_upward(b, a)
    } else {
        adjacent_upward(a, b)
    }
}

impl WireTierLayer {
    pub fn new(tier: u32, layer: Layer) -> (r: WireTierLayer)
        ensures
            r == (WireTierLayer { tier, layer }),
    {
        WireTierLayer { tier, layer }
    }

    /// Whether `self` comes before `other` in (tier, layer) order.
    pub fn precedes(&self, other: &WireTierLayer) -> (r: bool)
        ensures
            r == spec_precedes(*self, *other),
    {
        self.tier < other.tier || (self.tier == other.tier && self.layer.to_compact_idx() < other.layer.to_compact_idx())
    }

    /// Whether a wire can pass directly between the two tier-layers: they are equal, one is
    /// the next layer up in the same tier, or they are the top layer of one tier and the bottom
    /// layer of the tier above.
    pub fn adjacent(self, other: WireTierLayer) -> (r: bool)
        ensures
            r == spec_adjacent(self, other),
    {
        let (lo, hi) = if other.precedes(&self) { (other, self) } else { (self, other) };
        proof {
            assert(hi.tier >= lo.tier);
        }
        let delta_tier = hi.tier - lo.tier;
        if delta_tier == 0 {
            lo.layer == hi.layer || lo.layer.next() == hi.layer
        } else if delta_tier == 1 {
            lo.layer == Layer::M3 && hi.layer == Layer::LI
        } else {
            false
        }
    }
}

/// Two tier-layers are adjacent exactly when their positions in the layer stack are at most one
/// apart; in particular adjacency is symmetric and every tier-layer is adjacent to itself.
pub proof fn lemma_adjacent_iff_stack_neighbours(a: WireTierLayer, b: WireTierLayer)
    ensures
        spec_adjacent(a, b) <==> -1 <= stack_index(a) - stack_index(b) <= 1,
        spec_adjacent(a, b) == spec_adjacent(b, a),
        spec_adjacent(a, a),
{
    assert(spec_precedes(a, b) <==> stack_index(a) < stack_index(b));
    assert(spec_precedes(b, a) <==> stack_index(b) < stack_index(a));
    assert(!spec_precedes(a, b) && !spec_precedes(b, a) ==> a == b);
}

/// What a block write puts down.
#[derive(Clone, Copy, Debug, PartialEq, Eq, Structural)]
pub enum Material {
    Air,
    Calcite,
    RedstoneWire,
}

/// One block to place, at block coordinates that may still be negative.
#[derive(Clone, Copy, Debug, PartialEq, Eq, Structural)]
pub struct BlockWrite {
    pub x: i32,
    pub y: i32,
    pub z: i32,
    pub material: Material,
}

/// The block write at the given coordinates.
pub open spec fn bw(x: int, y: int, z: int, m: Material) -> BlockWrite {
    BlockWrite { x: x as i32, y: y as i32, z: z as i32, material: m }
}

/// Dust on calcite at `(x, y, z)`, with air above the dust.
pub open spec fn dust_column(p: (int, int, int)) -> Seq<BlockWrite> {
    seq![bw(p.0, p.1, p.2, Material::Calcite), bw(p.0, p.1 + 1, p.2, Material::RedstoneWire),
        bw(p.0, p.1 + 2, p.2, Material::Air)]
}

/// `p` moved `k` steps in planar direction `d` and `k` blocks up.
pub open spec fn stair_step(p: (int, int, int), d: Direction, k: int) -> (int, int, int) {
    let (dx, dy, dz) = crate::block_storage::direction_delta(d);
    (p.0 + k * dx, p.1 + k, p.2 + k * dz)
}

/// Four dust columns climbing one block per step in direction `d`, starting at `p`.
pub open spec fn staircase(p: (int, int, int), d: Direction) -> Seq<BlockWrite> {
    dust_column(p) + dust_column(stair_step(p, d, 1)) + dust_column(stair_step(p, d, 2))
        + dust_column(stair_step(p, d, 3))
}

/// Direction pairs of a same-layer segment that continue the wire south of the cell.
pub open spec fn pair_goes_south(din: Direction, dout: Direction) -> bool {
    ||| (din == Direction::South && dout == Direction::West)
    ||| (din == Direction::West && dout == Direction::South)
    ||| (din == Direction::North && dout == Direction::North)
    ||| (din == Direction::South && dout == Direction::South)
}

/// Direction pairs of a same-layer segment that continue the wire east of the cell.
pub open spec fn pair_goes_east(din: Direction, dout: Direction) -> bool {
    ||| (din == Direction::East && dout == Direction::East)
    ||| (din == Direction::West && dout == Direction::West)
    ||| (din == Direction::North && dout == Direction::East)
    ||| (din == Direction::East && dout == Direction::North)
}

/// Direction pairs of a same-layer segment that stay in the cell's own block.
pub open spec fn pair_stays(din: Direction, dout: Direction) -> bool {
    ||| (din == Direction::North && dout == Direction::West)
    ||| (din == Direction::West && dout == Direction::North)
}

/// Direction pairs of a same-layer segment that fill both the south and the east block.
pub open spec fn pair_goes_south_east(din: Direction, dout: Direction) -> bool {
    ||| (din == Direction::South && dout == Direction::East)
    ||| (din == Direction::East && dout == Direction::South)
}

/// Outcome of a wire segment: where the signal went and on which layer.
pub type SplatOutcome = Result<(WirePosition, WireTierLayer), SplatError>;

/// Blocks written for a segment that stays on tier-layer `tl`, and its outcome.
pub open spec fn same_layer_plan(s: WirePosition, tl: WireTierLayer, din: Direction, dout: Direction)
    -> (Seq<BlockWrite>, SplatOutcome)
{
    let x = 2 * s.x;
    let z = 2 * s.y;
    let y = tl.tier * 16 + y_idx(tl.layer);
    let head = seq![bw(x, y, z, Material::Calcite), bw(x, y + 1, z, Material::RedstoneWire)];
    let done = Ok::<(WirePosition, WireTierLayer), SplatError>((wire_at(wire_step(s.key(), din)), tl));
    if pair_goes_south(din, dout) {
        (head + seq![bw(x, y, z + 1, Material::Calcite), bw(x, y + 1, z + 1, Material::RedstoneWire)], done)
    } else if pair_goes_east(din, dout) {
        (head + seq![bw(x + 1, y, z, Material::Calcite), bw(x + 1, y + 1, z, Material::RedstoneWire)], done)
    } else if pair_stays(din, dout) {
        (head, done)
    } else if pair_goes_south_east(din, dout) {
        (head + seq![bw(x, y, z + 1, Material::Calcite), bw(x + 1, y, z, Material::Calcite),
            bw(x, y + 1, z + 1, Material::RedstoneWire), bw(x + 1, y + 1, z, Material::RedstoneWire)], done)
    } else {
        (head, Err(SplatError::UnsupportedDirections(din, dout)))
    }
}

/// For a via entered in direction `din` and left in direction `dout`, with base block `b`: the
/// extra dust column that turns the corner, and the foot of the staircase.
pub open spec fn via_fill(din: Direction, dout: Direction, b: (int, int, int))
    -> Option<(Seq<BlockWrite>, (int, int, int))>
{
    let (x, y, z) = b;
    if din == Direction::North && (dout == Direction::North || dout == Direction::West) {
        Some((seq![], (x, y, z + 1)))
    } else if din == Direction::North && dout == Direction::East {
        Some((dust_column((x + 1, y + 4, z - 2)), (x, y, z + 1)))
    } else if din == Direction::South && dout == Direction::South {
        Some((seq![], (x, y, z)))
    } else if din == Direction::South && dout == Direction::West {
        Some((seq![], (x, y, z - 1)))
    } else if din == Direction::South && dout == Direction::East {
        Some((dust_column((x + 1, y + 4, z + 2)), (x, y, z - 1)))
    } else if din == Direction::East && dout == Direction::North {
        Some((seq![], (x - 1, y, z)))
    } else if din == Direction::East && dout == Direction::South {
        Some((dust_column((x + 2, y + 4, z + 1)), (x - 1, y, z)))
    } else if din == Direction::East && dout == Direction::East {
        Some((seq![], (x, y, z)))
    } else if din == Direction::West && (dout == Direction::North || dout == Direction::West) {
        Some((seq![], (x + 1, y, z)))
    } else if din == Direction::West && dout == Direction::South {
        Some((dust_column((x - 2, y + 4, z + 1)), (x + 1, y, z)))
    } else {
        None
    }
}

/// Blocks written for a via from the lower tier-layer `lo` up to the higher one `hi`, and its
/// outcome.
pub open spec fn via_plan(s: WirePosition, lo: (WireTierLayer, Direction), hi: (WireTierLayer, Direction))
    -> (Seq<BlockWrite>, SplatOutcome)
{
    if hi.0.layer != Layer::M0 {
        (seq![], Err(SplatError::MetalViaUnsupported))
    } else if !is_planar(lo.1) {
        (seq![], Err(SplatError::CannotOffset(lo.1)))
    } else if !is_planar(hi.1) {
        (seq![], Err(SplatError::CannotOffset(hi.1)))
    } else {
        let end = wire_at(wire_step(wire_step(s.key(), lo.1), hi.1));
        let b = (2 * s.x, lo.0.tier * 16 + y_idx(lo.0.layer), 2 * s.y);
        match via_fill(lo.1, hi.1, b) {
            None => (seq![], Err(SplatError::UnsupportedDirections(lo.1, hi.1))),
            Some((fill, foot)) => (fill + staircase(foot, lo.1), Ok((end, hi.0))),
        }
    }
}

/// Blocks written for a segment through wire cell `s`, entered as `input` and left as
/// `output`, in writing order, and the outcome once they are all written.
pub open spec fn wire_segment_plan(s: WirePosition, input: (WireTierLayer, Direction), output: (WireTierLayer, Direction))
    -> (Seq<BlockWrite>, SplatOutcome)
{
    if input.0 == output.0 {
        same_layer_plan(s, input.0, input.1, output.1)
    } else if spec_precedes(input.0, output.0) {
        via_plan(s, input, output)
    } else {
        via_plan(s, output, input)
    }
}

/// `a` and `b` point in opposite directions.
pub open spec fn are_opposite(a: Direction, b: Direction) -> bool {
    let (da, db) = (crate::block_storage::direction_delta(a), crate::block_storage::direction_delta(b));
    da.0 + db.0 == 0 && da.1 + db.1 == 0 && da.2 + db.2 == 0
}

/// The sides of its cell that a same-layer wire entered in direction `din` and left in
/// direction `dout` reaches: both ends of a straight run, or the two sides a turn joins.
pub open spec fn wire_touches(din: Direction, dout: Direction, side: Direction) -> bool {
    if din == dout {
        side == din || are_opposite(side, din)
    } else {
        side == din || side == dout
    }
}

/// On a single layer, wire cell `s` is drawn in its corner block `(2 s.x, y, 2 s.y)` (with `y`
/// the layer's block row) as dust on calcite, and extended by one more block of dust on
/// calcite toward the south neighbour (`z + 1`) exactly when the wire reaches its south side,
/// and toward the east neighbour (`x + 1`) exactly when it reaches its east side; the north and
/// west neighbours draw their own extension toward this cell. Nothing is written outside the
/// cell's corner block and these two. The signal moves on to the neighbour in direction `din`,
/// a side the wire always reaches. A pair of directions that are not two planar, non-opposite
/// directions is refused.
pub proof fn lemma_same_layer_dust(s: WirePosition, tl: WireTierLayer, din: Direction, dout: Direction)
    requires
        splat_start_fits(s),
        splat_tier_fits(tl),
    ensures ({
        let plan = wire_segment_plan(s, (tl, din), (tl, dout));
        let w = plan.0;
        let (x, y, z) = (2 * s.x, tl.tier * 16 + y_idx(tl.layer), 2 * s.y);
        &&& w.contains(bw(x, y, z, Material::Calcite))
        &&& w.contains(bw(x, y + 1, z, Material::RedstoneWire))
        &&& forall|i: int| 0 <= i < w.len() ==> {
            ||| #[trigger] w[i] == bw(x, y, z, Material::Calcite)
            ||| w[i] == bw(x, y + 1, z, Material::RedstoneWire)
            ||| w[i] == bw(x, y, z + 1, Material::Calcite)
            ||| w[i] == bw(x, y + 1, z + 1, Material::RedstoneWire)
            ||| w[i] == bw(x + 1, y, z, Material::Calcite)
            ||| w[i] == bw(x + 1, y + 1, z, Material::RedstoneWire)
        }
        &&& if is_planar(din) && is_planar(dout) && !are_opposite(din, dout) {
            &&& wire_touches(din, dout, din)
            &&& plan.1 == Ok::<(WirePosition, WireTierLayer), SplatError>((wire_at(wire_step(s.key(), din)), tl))
            &&& w.contains(bw(x, y, z + 1, Material::Calcite)) == wire_touches(din, dout, Direction::South)
            &&& w.contains(bw(x, y + 1, z + 1, Material::RedstoneWire)) == wire_touches(din, dout, Direction::South)
            &&& w.contains(bw(x + 1, y, z, Material::Calcite)) == wire_touches(din, dout, Direction::East)
            &&& w.contains(bw(x + 1, y + 1, z, Material::RedstoneWire)) == wire_touches(din, dout, Direction::East)
        } else {
            plan.1 == Err::<(WirePosition, WireTierLayer), SplatError>(SplatError::UnsupportedDirections(din, dout))
        }
    }),
{
    let w = wire_segment_plan(s, (tl, din), (tl, dout)).0;
    let (x, y, z) = (2 * s.x, tl.tier * 16 + y_idx(tl.layer), 2 * s.y);
    let c0 = bw(x, y, z, Material::Calcite);
    let r0 = bw(x, y + 1, z, Material::RedstoneWire);
    let cs = bw(x, y, z + 1, Material::Calcite);
    let rs = bw(x, y + 1, z + 1, Material::RedstoneWire);
    let ce = bw(x + 1, y, z, Material::Calcite);
    let re = bw(x + 1, y + 1, z, Material::RedstoneWire);
    // All six coordinates fit in `i32`, so the six writes are pairwise distinct.
    assert(x as i32 == x && (x + 1) as i32 == x + 1 && z as i32 == z && (z + 1) as i32 == z + 1);
    assert(y as i32 == y && (y + 1) as i32 == y + 1);
    assert(w[0] == c0 && w[1] == r0);
    let south = pair_goes_south(din, dout);
    let east = pair_goes_east(din, dout);
    let both = pair_goes_south_east(din, dout);
    if south {
        assert(w =~= seq![c0, r0, cs, rs]);
    } else if east {
        assert(w =~= seq![c0, r0, ce, re]);
    } else if pair_stays(din, dout) {
        assert(w =~= seq![c0, r0]);
    } else if both {
        assert(w =~= seq![c0, r0, cs, ce, rs, re]);
    } else {
        assert(w =~= seq![c0, r0]);
    }
    let has_s = south || both;
    let has_e = east || both;
    assert(w.contains(c0) && w.contains(r0));
    if has_s {
        assert(w[2] == cs);
        assert(w.contains(cs));
        if south {
            assert(w[3] == rs);
        } else {
            assert(w[4] == rs);
        }
        assert(w.contains(rs));
    } else {
        assert forall|i: int| 0 <= i < w.len() implies w[i] != cs && w[i] != rs by {}
    }
    if has_e {
        if east {
            assert(w[2] == ce && w[3] == re);
        } else {
            assert(w[3] == ce && w[5] == re);
        }
        assert(w.contains(ce));
        assert(w.contains(re));
    } else {
        assert forall|i: int| 0 <= i < w.len() implies w[i] != ce && w[i] != re by {}
    }
}

/// A via from the lower tier-layer `lo` up to the first metal layer `hi`, through wire cell
/// `s` whose corner block is `c = (2 s.x, y, 2 s.y)` (with `y` the lower layer's block row),
/// entered in direction `lo.1` and left in direction `hi.1`: for two planar, non-opposite
/// directions it is a staircase of four dust columns climbing one block per step in direction
/// `lo.1`, starting one block behind `c` (against `lo.1`), or at `c` itself for a straight run
/// south or east; when the wire turns east or south, one more dust column on the upper layer
/// joins the middle cell `s + lo.1` to the side it turns to. The signal ends in the cell
/// `s + lo.1 + hi.1` on `hi`. Any other pair of directions is refused.
pub proof fn lemma_via_shape(s: WirePosition, lo: (WireTierLayer, Direction), hi: (WireTierLayer, Direction))
    requires
        hi.0.layer == Layer::M0,
        is_planar(lo.1),
        is_planar(hi.1),
    ensures ({
        let plan = via_plan(s, lo, hi);
        let c = (2 * s.x, lo.0.tier * 16 + y_idx(lo.0.layer), 2 * s.y);
        let d = crate::block_storage::direction_delta(lo.1);
        let e = crate::block_storage::direction_delta(hi.1);
        let straight_out = lo.1 == hi.1 && (lo.1 == Direction::South || lo.1 == Direction::East);
        let foot = if straight_out { c } else { (c.0 - d.0, c.1, c.2 - d.2) };
        let turns_out = lo.1 != hi.1 && (hi.1 == Direction::South || hi.1 == Direction::East);
        let fill = if turns_out { dust_column((c.0 + 2 * d.0 + e.0, c.1 + 4, c.2 + 2 * d.2 + e.2)) } else { seq![] };
        if !are_opposite(lo.1, hi.1) {
            &&& plan.0 == fill + staircase(foot, lo.1)
            &&& plan.1 == Ok::<(WirePosition, WireTierLayer), SplatError>((wire_at(wire_step(wire_step(s.key(), lo.1), hi.1)), hi.0))
        } else {
            plan == (Seq::<BlockWrite>::empty(), Err::<(WirePosition, WireTierLayer), SplatError>(SplatError::UnsupportedDirections(lo.1, hi.1)))
        }
    }),
{
}

/// Wire cells whose block coordinates, and those of their neighbours, fit in `i32`.
pub open spec fn splat_start_fits(s: WirePosition) -> bool {
    -0x3fff_fff0 <= s.x <= 0x3fff_fff0 && -0x3fff_fff0 <= s.y <= 0x3fff_fff0
}

/// Tiers whose block rows fit in `i32`.
pub open spec fn splat_tier_fits(t: WireTierLayer) -> bool {
    t.tier * 16 + 16 <= i32::MAX
}

fn push_write(w: &mut Vec<BlockWrite>, x: i32, y: i32, z: i32, m: Material)
    ensures
        final(w)@ == old(w)@.push(bw(x as int, y as int, z as int, m)),
{
    w.push(BlockWrite { x, y, z, material: m });
}

fn push_dust_column(w: &mut Vec<BlockWrite>, x: i32, y: i32, z: i32)
    requires
        y + 2 <= i32::MAX,
    ensures
        final(w)@ == old(w)@ + dust_column((x as int, y as int, z as int)),
{
    push_write(w, x, y, z, Material::Calcite);
    push_write(w, x, y + 1, z, Material::RedstoneWire);
    push_write(w, x, y + 2, z, Material::Air);
    proof {
        assert(final(w)@ =~= old(w)@ + dust_column((x as int, y as int, z as int)));
    }
}

/// The blocks to write for a segment that stays on tier-layer `tl`, and its outcome.
#[verifier::rlimit(40)]
fn plan_same_layer(s: WirePosition, tl: WireTierLayer, din: Direction, dout: Direction)
    -> (r: (Vec<BlockWrite>, SplatOutcome))
    requires
        splat_start_fits(s),
        splat_tier_fits(tl),
    ensures
        r.0@ == same_layer_plan(s, tl, din, dout).0,
        r.1 == same_layer_plan(s, tl, din, dout).1,
{
    let mut w: Vec<BlockWrite> = Vec::new();
    let x: i32 = s.x * 2;
    let z: i32 = s.y * 2;
    let y: i32 = (tl.tier * 16 + tl.layer.to_y_idx()) as i32;
    push_write(&mut w, x, y, z, Material::Calcite);
    push_write(&mut w, x, y + 1, z, Material::RedstoneWire);
    match (din, dout) {
        (Direction::South, Direction::West)
        | (Direction::West, Direction::South)
        | (Direction::North, Direction::North)
        | (Direction::South, Direction::South) => {
            push_write(&mut w, x, y, z + 1, Material::Calcite);
            push_write(&mut w, x, y + 1, z + 1, Material::RedstoneWire);
        },
        (Direction::East, Direction::East)
        | (Direction::West, Direction::West)
        | (Direction::North, Direction::East)
        | (Direction::East, Direction::North) => {
            push_write(&mut w, x + 1, y, z, Material::Calcite);
            push_write(&mut w, x + 1, y + 1, z, Material::RedstoneWire);
        },
        (Direction::North, Direction::West) | (Direction::West, Direction::North) => {},
        (Direction::South, Direction::East) | (Direction::East, Direction::South) => {
            push_write(&mut w, x, y, z + 1, Material::Calcite);
            push_write(&mut w, x + 1, y, z, Material::Calcite);
            push_write(&mut w, x, y + 1, z + 1, Material::RedstoneWire);
            push_write(&mut w, x + 1, y + 1, z, Material::RedstoneWire);
        },
        _ => {
            proof {
                assert(w@ =~= same_layer_plan(s, tl, din, dout).0);
            }
            return (w, Err(SplatError::UnsupportedDirections(din, dout)));
        },
    }
    proof {
        assert(w@ =~= same_layer_plan(s, tl, din, dout).0);
    }
    match s.offset(din) {
        Ok(p) => (w, Ok((p, tl))),
        Err(e) => (w, Err(e)),
    }
}

/// The blocks to write for a via from the lower tier-layer `lo` to the higher one `hi` of the
/// same tier, and its outcome.
#[verifier::rlimit(40)]
fn plan_via(s: WirePosition, lo: (WireTierLayer, Direction), hi: (WireTierLayer, Direction))
    -> (r: (Vec<BlockWrite>, SplatOutcome))
    requires
        splat_start_fits(s),
        splat_tier_fits(lo.0),
        lo.0.tier == hi.0.tier,
        spec_precedes(lo.0, hi.0),
    ensures
        r.0@ == via_plan(s, lo, hi).0,
        r.1 == via_plan(s, lo, hi).1,
{
    let mut w: Vec<BlockWrite> = Vec::new();
    if hi.0.layer != Layer::M0 {
        return (w, Err(SplatError::MetalViaUnsupported));
    }
    let mid = match s.offset(lo.1) {
        Ok(p) => p,
        Err(e) => return (w, Err(e)),
    };
    let end = match mid.offset(hi.1) {
        Ok(p) => p,
        Err(e) => return (w, Err(e)),
    };
    proof {
        assert(lo.0.layer == Layer::LI);
    }
    let bx: i32 = s.x * 2;
    let by: i32 = (lo.0.tier * 16 + lo.0.layer.to_y_idx()) as i32;
    let bz: i32 = s.y * 2;
    let foot: (i32, i32, i32) = match (lo.1, hi.1) {
        (Direction::North, Direction::North | Direction::West) => (bx, by, bz + 1),
        (Direction::North, Direction::East) => {
            push_dust_column(&mut w, bx + 1, by + 4, bz - 2);
            (bx, by, bz + 1)
        },
        (Direction::South, Direction::South) => (bx, by, bz),
        (Direction::South, Direction::West) => (bx, by, bz - 1),
        (Direction::South, Direction::East) => {
            push_dust_column(&mut w, bx + 1, by + 4, bz + 2);
            (bx, by, bz - 1)
        },
        (Direction::East, Direction::North) => (bx - 1, by, bz),
        (Direction::East, Direction::South) => {
            push_dust_column(&mut w, bx + 2, by + 4, bz + 1);
            (bx - 1, by, bz)
        },
        (Direction::East, Direction::East) => (bx, by, bz),
        (Direction::West, Direction::North | Direction::West) => (bx + 1, by, bz),
        (Direction::West, Direction::South) => {
            push_dust_column(&mut w, bx - 2, by + 4, bz + 1);
            (bx + 1, by, bz)
        },
        (din, dout) => {
            return (w, Err(SplatError::UnsupportedDirections(din, dout)));
        },
    };
    let ghost fill = w@;
    proof {
        assert(via_fill(lo.1, hi.1, (bx as int, by as int, bz as int)) == Some((fill, (foot.0 as int, foot.1 as int, foot.2 as int))));
    }
    let (dx, dz): (i32, i32) = match lo.1 {
        Direction::North => (0, -1),
        Direction::South => (0, 1),
        Direction::East => (1, 0),
        _ => (-1, 0),
    };
    let (fx, fy, fz) = foot;
    push_dust_column(&mut w, fx, fy, fz);
    push_dust_column(&mut w, fx + dx, fy + 1, fz + dz);
    push_dust_column(&mut w, fx + 2 * dx, fy + 2, fz + 2 * dz);
    push_dust_column(&mut w, fx + 3 * dx, fy + 3, fz + 3 * dz);
    proof {
        let f = (fx as int, fy as int, fz as int);
        assert(w@ =~= fill + staircase(f, lo.1));
    }
    (w, Ok((end, hi.0)))
}

/// The blocks to write for a segment through wire cell `s`, in writing order, and the outcome
/// once they are all written.
fn plan_wire_segment(s: WirePosition, input: (WireTierLayer, Direction), output: (WireTierLayer, Direction))
    -> (r: (Vec<BlockWrite>, SplatOutcome))
    requires
        splat_start_fits(s),
        splat_tier_fits(input.0),
        input.0.tier == output.0.tier,
    ensures
        r.0@ == wire_segment_plan(s, input, output).0,
        r.1 == wire_segment_plan(s, input, output).1,
{
    if input.0 == output.0 {
        plan_same_layer(s, input.0, input.1, output.1)
    } else if input.0.precedes(&output.0) {
        plan_via(s, input, output)
    } else {
        plan_via(s, output, input)
    }
}

/// Palette indices of air, calcite and redstone dust, in that order.
pub type MaterialIndices = (BlockTypeIndex, BlockTypeIndex, BlockTypeIndex);

/// The palette index used for a material.
pub open spec fn material_index(m: Material, idx: MaterialIndices) -> BlockTypeIndex {
    match m {
        Material::Air => idx.0,
        Material::Calcite => idx.1,
        Material::RedstoneWire => idx.2,
    }
}

fn material_index_exec(m: Material, idx: MaterialIndices) -> (r: BlockTypeIndex)
    ensures
        r == material_index(m, idx),
{
    match m {
        Material::Air => idx.0,
        Material::Calcite => idx.1,
        Material::RedstoneWire => idx.2,
    }
}

/// Performing one block write on storage `v`: the new storage, or the error that stops the
/// writing. Coordinates are checked in the order x, y, z.
pub open spec fn write_step(v: BlockStorageView, w: BlockWrite, idx: MaterialIndices) -> (BlockStorageView, Option<SplatError>) {
    if w.x < 0 {
        (v, Some(SplatError::NegativeCoordinate(w.x)))
    } else if w.y < 0 {
        (v, Some(SplatError::NegativeCoordinate(w.y)))
    } else if w.z < 0 {
        (v, Some(SplatError::NegativeCoordinate(w.z)))
    } else if !v.in_bounds(w.x as int, w.y as int, w.z as int) {
        (v, Some(SplatError::OutOfBounds(BlockStorageError::OutOfBounds {
            x: w.x as u32,
            y: w.y as u32,
            z: w.z as u32,
            size_x: v.extents.0 as u32,
            size_y: v.extents.1 as u32,
            size_z: v.extents.2 as u32,
        })))
    } else {
        (v.with_block(w.x as int, w.y as int, w.z as int, material_index(w.material, idx)), None)
    }
}

/// Performing the block writes `ws` in order, stopping at the first one that fails: the
/// resulting storage and the error, if any.
pub open spec fn run_writes(v: BlockStorageView, ws: Seq<BlockWrite>, idx: MaterialIndices) -> (BlockStorageView, Option<SplatError>)
    decreases ws.len(),
{
    if ws.len() == 0 {
        (v, None)
    } else {
        let prev = run_writes(v, ws.drop_last(), idx);
        if prev.1 is Some {
            prev
        } else {
            write_step(prev.0, ws.last(), idx)
        }
    }
}

proof fn lemma_run_error_persists(v: BlockStorageView, ws: Seq<BlockWrite>, k: int, idx: MaterialIndices)
    requires
        0 <= k <= ws.len(),
        run_writes(v, ws.take(k), idx).1 is Some,
    ensures
        run_writes(v, ws, idx) == run_writes(v, ws.take(k), idx),
    decreases ws.len(),
{
    if k == ws.len() {
        assert(ws.take(k) =~= ws);
    } else {
        assert(ws.drop_last().take(k) =~= ws.take(k));
        lemma_run_error_persists(v, ws.drop_last(), k, idx);
    }
}

/// Performs the block writes `ws` in order, stopping at the first one that fails.
fn apply_writes(o: &mut BlockStorage, ws: &Vec<BlockWrite>, idx: MaterialIndices) -> (r: Result<(), SplatError>)
    requires
        old(o).wf(),
    ensures
        final(o).wf(),
        final(o)@ == run_writes(old(o)@, ws@, idx).0,
        r == match run_writes(old(o)@, ws@, idx).1 {
            Some(e) => Err::<(), SplatError>(e),
            None => Ok(()),
        },
{
    let ghost v0 = o@;
    let mut i: usize = 0;
    while i < ws.len()
        invariant
            o.wf(),
            0 <= i <= ws.len(),
            v0 == old(o)@,
            run_writes(v0, ws@.take(i as int), idx) == (o@, None::<SplatError>),
        decreases ws.len() - i,
    {
        let w = ws[i];
        let ghost before = o@;
        proof {
            assert(ws@.take(i + 1).drop_last() =~= ws@.take(i as int));
            assert(ws@.take(i + 1).last() == w);
            assert(run_writes(v0, ws@.take(i + 1), idx) == write_step(before, w, idx));
        }
        if w.x < 0 {
            proof { lemma_run_error_persists(v0, ws@, i + 1, idx); }
            return Err(SplatError::NegativeCoordinate(w.x));
        }
        if w.y < 0 {
            proof { lemma_run_error_persists(v0, ws@, i + 1, idx); }
            return Err(SplatError::NegativeCoordinate(w.y));
        }
        if w.z < 0 {
            proof { lemma_run_error_persists(v0, ws@, i + 1, idx); }
            return Err(SplatError::NegativeCoordinate(w.z));
        }
        let m = material_index_exec(w.material, idx);
        match o.get_block_mut(w.x as u32, w.y as u32, w.z as u32) {
            Ok(b) => {
                *b = m;
            },
            Err(e) => {
                proof { lemma_run_error_persists(v0, ws@, i + 1, idx); }
                return Err(SplatError::OutOfBounds(e));
            },
        }
        proof {
            assert(o@ == write_step(before, w, idx).0);
        }
        i = i + 1;
    }
    proof {
        assert(ws@.take(ws@.len() as int) =~= ws@);
    }
    Ok(())
}

/// The view of air, the block that clears a position.
pub open spec fn air_view() -> BlockView {
    BlockView { name: "minecraft:air"@, properties: None }
}

/// The view of calcite, the block that carries redstone dust.
pub open spec fn calcite_view() -> BlockView {
    BlockView { name: "minecraft:calcite"@, properties: None }
}

/// The view of redstone dust.
pub open spec fn redstone_view() -> BlockView {
    BlockView { name: "minecraft:redstone_wire"@, properties: None }
}

/// The palette after making sure it holds block type `b`.
pub open spec fn palette_with(p: Seq<BlockView>, b: BlockView) -> Seq<BlockView> {
    if p.contains(b) {
        p
    } else {
        p.push(b)
    }
}

/// The palette after making sure it holds air, calcite and redstone dust, added in that order.
pub open spec fn splat_palette(p: Seq<BlockView>) -> Seq<BlockView> {
    palette_with(palette_with(palette_with(p, air_view()), calcite_view()), redstone_view())
}

/// `i` is the first palette slot holding `b`.
pub open spec fn is_first_index(p: Seq<BlockView>, b: BlockView, i: int) -> bool {
    0 <= i < p.len() && p[i] == b && forall|j: int| 0 <= j < i ==> p[j] != b
}

/// The first palette slot holding `b`.
pub open spec fn palette_index(p: Seq<BlockView>, b: BlockView) -> BlockTypeIndex {
    BlockTypeIndex(choose|i: u32| is_first_index(p, b, i as int))
}

/// The palette indices of air, calcite and redstone dust in palette `p`.
pub open spec fn splat_indices(p: Seq<BlockView>) -> MaterialIndices {
    (palette_index(p, air_view()), palette_index(p, calcite_view()), palette_index(p, redstone_view()))
}

/// Storage `v` with its palette replaced by `p`.
pub open spec fn with_palette(v: BlockStorageView, p: Seq<BlockView>) -> BlockStorageView {
    BlockStorageView { extents: v.extents, palette: p, blocks: v.blocks }
}

/// The palette index of a block type is the first slot holding it.
pub proof fn lemma_palette_index(p: Seq<BlockView>, b: BlockView, i: u32)
    requires
        is_first_index(p, b, i as int),
    ensures
        palette_index(p, b) == BlockTypeIndex(i),
{
    let j = choose|j: u32| is_first_index(p, b, j as int);
    assert(is_first_index(p, b, j as int));
    if j < i {
        assert(p[j as int] != b);
    } else if i < j {
        assert(p[i as int] != b);
    }
}

/// Making sure the palette holds another block type keeps the first slot of every type.
pub proof fn lemma_first_index_kept(p: Seq<BlockView>, b: BlockView, i: int, c: BlockView)
    requires
        is_first_index(p, b, i),
    ensures
        is_first_index(palette_with(p, c), b, i),
{
}

/// Adds block type `b` to the palette of `o` if needed, and returns its first palette slot.
pub(crate) fn add_material(o: &mut BlockStorage, b: Block) -> (r: BlockTypeIndex)
    requires
        old(o).wf(),
        b.wf(),
        old(o)@.palette.len() < u32::MAX,
    ensures
        final(o).wf(),
        final(o)@ == with_palette(old(o)@, palette_with(old(o)@.palette, b@)),
        is_first_index(final(o)@.palette, b@, r.0 as int),
{
    let r = o.add_new_block_type(b);
    proof {
        assert(final(o)@.palette == palette_with(old(o)@.palette, b@));
        if !old(o)@.palette.contains(b@) {
            assert forall|j: int| 0 <= j < r.0 implies final(o)@.palette[j] != b@ by {
                if final(o)@.palette[j] == b@ {
                    assert(old(o)@.palette[j] == b@);
                }
            }
        }
    }
    r
}

/// Splat a wire segment into the output storage.
///
/// `start_position` is the wire cell being routed through, with signal flowing into the cell
/// in direction `input.1` on tier-layer `input.0` and flowing out of the cell on tier-layer
/// `output.0` in direction `output.1`. Air, calcite and redstone dust are added to the palette,
/// then the blocks of [`wire_segment_plan`] are written in order until one fails.
///
/// Returns the wire position and tier-layer to which the signal was routed.
pub fn splat_wire_segment(
    o: &mut BlockStorage,
    start_position: WirePosition,
    input: (WireTierLayer, Direction),
    output: (WireTierLayer, Direction),
) -> (r: SplatOutcome)
    requires
        old(o).wf(),
        old(o)@.palette.len() + 3 < u32::MAX,
        splat_start_fits(start_position),
        splat_tier_fits(input.0),
    ensures
        final(o).wf(),
        !spec_adjacent(input.0, output.0) ==> r == Err::<(WirePosition, WireTierLayer), SplatError>(SplatError::LayersNotAdjacent)
            && *final(o) == *old(o),
        spec_adjacent(input.0, output.0) && input.0.tier != output.0.tier ==> r == Err::<(WirePosition, WireTierLayer), SplatError>(SplatError::TierChangeUnsupported)
            && *final(o) == *old(o),
        spec_adjacent(input.0, output.0) && input.0.tier == output.0.tier ==> ({
            let pal = splat_palette(old(o)@.palette);
            let plan = wire_segment_plan(start_position, input, output);
            let run = run_writes(with_palette(old(o)@, pal), plan.0, splat_indices(pal));
            &&& final(o)@ == run.0
            &&& r == match run.1 {
                Some(e) => Err::<(WirePosition, WireTierLayer), SplatError>(e),
                None => plan.1,
            }
        }),
{
    if !input.0.adjacent(output.0) {
        return Err(SplatError::LayersNotAdjacent);
    }
    if input.0.tier != output.0.tier {
        return Err(SplatError::TierChangeUnsupported);
    }
    let ghost p0 = o@.palette;
    let b_air = add_material(o, Block::new(String::from_str("minecraft:air")));
    let ghost p1 = o@.palette;
    let b_calcite = add_material(o, Block::new(String::from_str("minecraft:calcite")));
    let ghost p2 = o@.palette;
    let b_redstone = add_material(o, Block::new(String::from_str("minecraft:redstone_wire")));
    let ghost pal = o@.palette;
    proof {
        lemma_first_index_kept(p1, air_view(), b_air.0 as int, calcite_view());
        lemma_first_index_kept(p2, air_view(), b_air.0 as int, redstone_view());
        lemma_first_index_kept(p2, calcite_view(), b_calcite.0 as int, redstone_view());
        lemma_palette_index(pal, air_view(), b_air.0);
        lemma_palette_index(pal, calcite_view(), b_calcite.0);
        lemma_palette_index(pal, redstone_view(), b_redstone.0);
        assert(pal == splat_palette(old(o)@.palette));
    }
    let (writes, outcome) = plan_wire_segment(start_position, input, output);
    match apply_writes(o, &writes, (b_air, b_calcite, b_redstone)) {
        Err(e) => Err(e),
        Ok(()) => outcome,
    }
}

/// Writing blocks leaves the extents and the palette as they are.
pub proof fn lemma_run_writes_keeps(v: BlockStorageView, ws: Seq<BlockWrite>, idx: MaterialIndices)
    ensures
        run_writes(v, ws, idx).0.extents == v.extents,
        run_writes(v, ws, idx).0.palette == v.palette,
        v.wf() ==> run_writes(v, ws, idx).0.wf(),
    decreases ws.len(),
{
    if ws.len() > 0 {
        lemma_run_writes_keeps(v, ws.drop_last(), idx);
        let prev = run_writes(v, ws.drop_last(), idx).0;
        if v.wf() {
            assert forall|p: (int, int, int)| #[trigger] write_step(prev, ws.last(), idx).0.blocks.contains_key(p)
                <==> write_step(prev, ws.last(), idx).0.in_bounds(p.0, p.1, p.2) by {
                assert(prev.blocks.contains_key(p) <==> prev.in_bounds(p.0, p.1, p.2));
            }
        }
    }
}

/// Making sure the palette holds the wire blocks adds at most three entries, and a second time
/// adds nothing.
pub proof fn lemma_splat_palette(p: Seq<BlockView>)
    ensures
        splat_palette(p).len() <= p.len() + 3,
        splat_palette(splat_palette(p)) == splat_palette(p),
        p.len() <= splat_palette(p).len(),
{
    let p1 = palette_with(p, air_view());
    let p2 = palette_with(p1, calcite_view());
    let p3 = palette_with(p2, redstone_view());
    assert(p1.contains(air_view())) by {
        if !p.contains(air_view()) {
            assert(p1[p.len() as int] == air_view());
        }
    }
    assert(p2.contains(air_view())) by {
        let i = choose|i: int| 0 <= i < p1.len() && p1[i] == air_view();
        assert(p2[i] == air_view());
    }
    assert(p3.contains(air_view())) by {
        let i = choose|i: int| 0 <= i < p2.len() && p2[i] == air_view();
        assert(p3[i] == air_view());
    }
    assert(p2.contains(calcite_view())) by {
        if !p1.contains(calcite_view()) {
            assert(p2[p1.len() as int] == calcite_view());
        }
    }
    assert(p3.contains(calcite_view())) by {
        let i = choose|i: int| 0 <= i < p2.len() && p2[i] == calcite_view();
        assert(p3[i] == calcite_view());
    }
    assert(p3.contains(redstone_view())) by {
        if !p2.contains(redstone_view()) {
            assert(p3[p2.len() as int] == redstone_view());
        }
    }
}

} // verus!
