//! Detail router on the 3D wire grid: a weighted search from the sink towards any cell already
//! owned by the net, then a backtrack that records, in each cell, the direction back towards
//! the net.

use vstd::prelude::*;

use crate::block_storage::{direction_delta, lemma_mirror_involution, spec_mirror, Direction, Position};
use crate::routing_2d::RouteId;

verus! {

/// Blocks per wire grid cell along x and z.
pub const WIRE_GRID_SCALE: i32 = 2;

/// Blocks per tier along y.
pub const BLOCKS_PER_TIER_I32: i32 = 16;

/// Routing layers per tier.
pub const LAYERS_PER_TIER: u32 = 5;

/// Contents of one detail routing grid cell.
#[derive(Copy, Clone, Debug, PartialEq, Eq, Structural)]
pub enum GridCell {
    /// Completely free.
    Free,
    /// Blocked by something (e.g. part of the guts of a cell).
    Blocked,
    /// Occupied by the net with the given id; the direction points towards the net's driver.
    Occupied(Direction, RouteId),
}

/// A position on the detail routing grid. `y` is `tier * LAYERS_PER_TIER + layer`.
#[derive(Clone, Copy, Debug, PartialEq, Eq, Structural)]
pub struct GridCellPosition {
    pub x: i32,
    pub y: i32,
    pub z: i32,
}

impl GridCellPosition {
    pub fn new(x: i32, y: i32, z: i32) -> (r: GridCellPosition)
        ensures
            r == (GridCellPosition { x, y, z }),
    {
        GridCellPosition { x, y, z }
    }

    /// The position as a triple of integers.
    pub open spec fn key(self) -> (int, int, int) {
        (self.x as int, self.y as int, self.z as int)
    }

    /// Whether the position lies in the half-open box `[min, max)`.
    pub fn in_bounding_box(&self, min: &GridCellPosition, max: &GridCellPosition) -> (r: bool)
        ensures
            r == (min.x <= self.x < max.x && min.y <= self.y < max.y && min.z <= self.z < max.z),
    {
        let x = min.x <= self.x && self.x < max.x;
        let y = min.y <= self.y && self.y < max.y;
        let z = min.z <= self.z && self.z < max.z;
        x && y && z
    }

    /// The neighbouring position in direction `d`, as integers.
    pub open spec fn spec_offset(self, d: Direction) -> (int, int, int) {
        let (dx, dy, dz) = direction_delta(d);
        (self.x + dx, self.y + dy, self.z + dz)
    }

    /// Whether the neighbour in direction `d` stays inside the range of `i32`.
    pub open spec fn can_offset(self, d: Direction) -> bool {
        let (x, y, z) = self.spec_offset(d);
        i32::MIN <= x <= i32::MAX && i32::MIN <= y <= i32::MAX && i32::MIN <= z <= i32::MAX
    }

    /// The neighbouring position in direction `d`.
    pub fn offset(self, d: Direction) -> (r: GridCellPosition)
        requires
            self.can_offset(d),
        ensures
            r.key() == self.spec_offset(d),
    {
        match d {
            Direction::North => GridCellPosition::new(self.x, self.y, self.z - 1),
            Direction::South => GridCellPosition::new(self.x, self.y, self.z + 1),
            Direction::East => GridCellPosition::new(self.x + 1, self.y, self.z),
            Direction::West => GridCellPosition::new(self.x - 1, self.y, self.z),
            Direction::Up => GridCellPosition::new(self.x, self.y + 1, self.z),
            Direction::Down => GridCellPosition::new(self.x, self.y - 1, self.z),
        }
    }

    /// The grid position holding the block at `p`: x and z scaled down by the wire grid,
    /// y split into tier and layer.
    pub fn from_block_position(p: Position) -> (r: Result<GridCellPosition, LayerError>)
        ensures
            trunc_rem(p.y as int, 16) < 0 ==> r == Err::<GridCellPosition, LayerError>(
                LayerError::YOutOfRange(trunc_rem(p.y as int, 16) as i32)),
            trunc_rem(p.y as int, 16) >= 0 ==> r is Ok && ({
                let g = r->Ok_0;
                &&& g.x == trunc_div(p.x as int, 2)
                &&& g.z == trunc_div(p.z as int, 2)
                &&& g.y == trunc_div(p.y as int, 16) * 5 + compact_idx(layer_of_y(trunc_rem(p.y as int, 16)))
            }),
    {
        let tier = p.y / 16;
        assert(tier == trunc_div(p.y as int, 16));
        assert(-134217728 <= tier <= 134217727);
        let layer = Layer::from_y_idx(p.y % 16)?;
        Ok(GridCellPosition {
            x: p.x / WIRE_GRID_SCALE,
            y: tier * (LAYERS_PER_TIER as i32) + layer.to_compact_idx(),
            z: p.z / WIRE_GRID_SCALE,
        })
    }
}

/// Integer division rounding towards zero, as Rust's `/` does.
pub open spec fn trunc_div(a: int, b: int) -> int
    recommends
        b > 0,
{
    if a >= 0 {
        a / b
    } else {
        -((-a) / b)
    }
}

/// Remainder of division rounding towards zero, as Rust's `%` does: it has the sign of `a`.
pub open spec fn trunc_rem(a: int, b: int) -> int
    recommends
        b > 0,
{
    a - b * trunc_div(a, b)
}

/// Errors converting between layer indices and layers.
#[derive(Debug, PartialEq, Eq, Structural)]
pub enum LayerError {
    /// A y offset within a tier outside `[0, 16)`.
    YOutOfRange(i32),
    /// A compact layer index outside `[0, 5)`.
    UnsupportedCompactIdx(i32),
}

/// The routing layers of a tier, bottom to top.
#[derive(Clone, Copy, Debug, PartialEq, Eq, PartialOrd, Ord, Structural)]
pub enum Layer {
    /// Block rows [0, 4) of the tier.
    LI,
    /// Block rows [4, 7).
    M0,
    /// Block rows [7, 10).
    M1,
    /// Block rows [10, 13).
    M2,
    /// Block rows [13, 16).
    M3,
}

/// Index of a layer within its tier, bottom to top.
pub open spec fn compact_idx(l: Layer) -> int {
    match l {
        Layer::LI => 0,
        Layer::M0 => 1,
        Layer::M1 => 2,
        Layer::M2 => 3,
        Layer::M3 => 4,
    }
}

/// First block row of a layer within its tier.
pub open spec fn y_idx(l: Layer) -> int {
    match l {
        Layer::LI => 0,
        Layer::M0 => 4,
        Layer::M1 => 7,
        Layer::M2 => 10,
        Layer::M3 => 13,
    }
}

/// The layer holding block row `y` (in `[0, 16)`) of a tier.
pub open spec fn layer_of_y(y: int) -> Layer {
    if y < 4 {
        Layer::LI
    } else if y < 7 {
        Layer::M0
    } else if y < 10 {
        Layer::M1
    } else if y < 13 {
        Layer::M2
    } else {
        Layer::M3
    }
}

/// The layer with a given compact index.
pub open spec fn layer_of_compact(c: int) -> Layer {
    if c == 0 {
        Layer::LI
    } else if c == 1 {
        Layer::M0
    } else if c == 2 {
        Layer::M1
    } else if c == 3 {
        Layer::M2
    } else {
        Layer::M3
    }
}

/// The layer above, wrapping from the top layer back to the bottom one.
pub open spec fn spec_next(l: Layer) -> Layer {
    layer_of_compact((compact_idx(l) + 1) % 5)
}

impl Layer {
    /// The layer above, wrapping from `M3` to `LI`.
    pub fn next(self) -> (r: Layer)
        ensures
            r == spec_next(self),
    {
        match self {
            Layer::LI => Layer::M0,
            Layer::M0 => Layer::M1,
            Layer::M1 => Layer::M2,
            Layer::M2 => Layer::M3,
            Layer::M3 => Layer::LI,
        }
    }

    /// The layer holding block row `y` of a tier.
    pub fn from_y_idx(y: i32) -> (r: Result<Layer, LayerError>)
        ensures
            0 <= y < 16 ==> r == Ok::<Layer, LayerError>(layer_of_y(y as int)),
            !(0 <= y < 16) ==> r == Err::<Layer, LayerError>(LayerError::YOutOfRange(y)),
    {
        if !(0 <= y && y < 16) {
            return Err(LayerError::YOutOfRange(y));
        }
        if y < 4 {
            Ok(Layer::LI)
        } else {
            let all = all_layers();
            Ok(all[(1 + (y - 4) / 3) as usize])
        }
    }

    /// First block row of the layer within its tier.
    pub fn to_y_idx(self) -> (r: u32)
        ensures
            r == y_idx(self),
    {
        match self {
            Layer::LI => 0,
            Layer::M0 => 4,
            Layer::M1 => 7,
            Layer::M2 => 10,
            Layer::M3 => 13,
        }
    }

    /// Index of the layer within its tier.
    pub fn to_compact_idx(self) -> (r: i32)
        ensures
            r == compact_idx(self),
    {
        match self {
            Layer::LI => 0,
            Layer::M0 => 1,
            Layer::M1 => 2,
            Layer::M2 => 3,
            Layer::M3 => 4,
        }
    }

    /// The layer with compact index `compact`.
    pub fn from_compact_idx(compact: i32) -> (r: Result<Layer, LayerError>)
        ensures
            0 <= compact < 5 ==> r == Ok::<Layer, LayerError>(layer_of_compact(compact as int)),
            !(0 <= compact < 5) ==> r == Err::<Layer, LayerError>(LayerError::UnsupportedCompactIdx(compact)),
    {
        match compact {
            0 => Ok(Layer::LI),
            1 => Ok(Layer::M0),
            2 => Ok(Layer::M1),
            3 => Ok(Layer::M2),
            4 => Ok(Layer::M3),
            _ => Err(LayerError::UnsupportedCompactIdx(compact)),
        }
    }
}

/// All layers, bottom to top.
pub fn all_layers() -> (r: [Layer; 5])
    ensures
        r@ == seq![Layer::LI, Layer::M0, Layer::M1, Layer::M2, Layer::M3],
{
    [Layer::LI, Layer::M0, Layer::M1, Layer::M2, Layer::M3]
}

/// Why a detail route could not be made.
#[derive(Debug, PartialEq)]
pub enum RoutingError {
    /// The search found no way to the net, or the backtrack stopped making progress.
    Unroutable,
    /// A position outside the grid was used.
    OutOfBounds { pos: GridCellPosition, bounds: (i32, i32, i32) },
}

/// Router over a 3D grid of wire cells.
pub struct DetailRouter {
    size_x: i32,
    size_y: i32,
    size_z: i32,
    zsi: usize,
    ysi: usize,
    grid: Vec<GridCell>,
    score_grid: Vec<u64>,
    current_bounds_min: GridCellPosition,
    current_bounds_max: GridCellPosition,
}

/// The mathematical value of a [`DetailRouter`]: its size and the contents of each cell.
pub struct DetailRouterView {
    pub size: (int, int, int),
    pub cells: Map<(int, int, int), GridCell>,
}

/// The net holding a cell, if any.
pub open spec fn cell_owner(c: GridCell) -> Option<RouteId> {
    match c {
        GridCell::Occupied(_, o) => Some(o),
        _ => None,
    }
}

/// Whether `p` lies in a grid of the given size.
pub open spec fn in_box(size: (int, int, int), p: (int, int, int)) -> bool {
    0 <= p.0 < size.0 && 0 <= p.1 < size.1 && 0 <= p.2 < size.2
}

/// Index of `p` in storage order (x fastest, then z, then y).
pub open spec fn grid_index(size: (int, int, int), p: (int, int, int)) -> int {
    p.0 + p.2 * size.0 + p.1 * (size.0 * size.2)
}

impl DetailRouterView {
    /// Whether `p` is on the grid.
    pub open spec fn contains(self, p: (int, int, int)) -> bool {
        in_box(self.size, p)
    }

    /// Whether net `id` may not enter `p`: off the grid, blocked, or held by another net.
    pub open spec fn blocked_for(self, p: (int, int, int), id: RouteId) -> bool {
        !self.contains(p) || self.cells[p] == GridCell::Blocked
            || (cell_owner(self.cells[p]) is Some && cell_owner(self.cells[p]) != Some(id))
    }

    /// Whether cell `p` belongs to net `id`.
    pub open spec fn owned_by(self, p: (int, int, int), id: RouteId) -> bool {
        self.contains(p) && cell_owner(self.cells[p]) == Some(id)
    }

    /// The grid with every cell of net `id` freed.
    pub open spec fn without_route(self, id: RouteId) -> DetailRouterView {
        DetailRouterView {
            cells: Map::new(
                |p: (int, int, int)| self.cells.contains_key(p),
                |p: (int, int, int)| if cell_owner(self.cells[p]) == Some(id) {
                    GridCell::Free
                } else {
                    self.cells[p]
                },
            ),
            ..self
        }
    }

    /// Cells cover exactly the grid.
    pub open spec fn wf(self) -> bool {
        forall|p: (int, int, int)| #[trigger] self.cells.contains_key(p) <==> self.contains(p)
    }
}

/// The view of a router with the given size and grid.
pub open spec fn detail_view(size: (int, int, int), grid: Seq<GridCell>) -> DetailRouterView {
    DetailRouterView {
        size,
        cells: Map::new(|p: (int, int, int)| in_box(size, p), |p: (int, int, int)| grid[grid_index(size, p)]),
    }
}

proof fn lemma_grid_index(size: (int, int, int), p: (int, int, int))
    requires
        in_box(size, p),
    ensures
        0 <= grid_index(size, p) < size.0 * size.1 * size.2,
        grid_index(size, p) % size.0 == p.0,
        grid_index(size, p) / (size.0 * size.2) == p.1,
        (grid_index(size, p) / size.0) % size.2 == p.2,
{
    crate::block_storage::lemma_linear_index(size.0, size.1, size.2, p.0, p.1, p.2);
}

proof fn lemma_grid_index_injective(size: (int, int, int), p: (int, int, int), q: (int, int, int))
    requires
        in_box(size, p),
        in_box(size, q),
        p != q,
    ensures
        grid_index(size, p) != grid_index(size, q),
{
    lemma_grid_index(size, p);
    lemma_grid_index(size, q);
}

proof fn lemma_detail_view_update(size: (int, int, int), grid: Seq<GridCell>, p: (int, int, int))
    requires
        in_box(size, p),
        grid.len() == size.0 * size.1 * size.2,
    ensures
        forall|c: GridCell| #[trigger] detail_view(size, grid.update(grid_index(size, p), c)) == (DetailRouterView {
            cells: detail_view(size, grid).cells.insert(p, c),
            ..detail_view(size, grid)
        }),
{
    assert forall|c: GridCell| #[trigger] detail_view(size, grid.update(grid_index(size, p), c)) == (DetailRouterView {
        cells: detail_view(size, grid).cells.insert(p, c),
        ..detail_view(size, grid)
    }) by {
        let a = detail_view(size, grid.update(grid_index(size, p), c));
        let b = detail_view(size, grid).cells.insert(p, c);
        lemma_grid_index(size, p);
        assert forall|q: (int, int, int)| #[trigger] a.cells.contains_key(q) implies a.cells[q] == b[q] by {
            lemma_grid_index(size, q);
            if q != p {
                lemma_grid_index_injective(size, q, p);
            }
        }
        assert(a.cells =~= b);
    }
}

impl View for DetailRouter {
    type V = DetailRouterView;

    closed spec fn view(&self) -> DetailRouterView {
        detail_view(self.spec_size(), self.grid@)
    }
}

impl DetailRouter {
    /// Size along x, y and z.
    closed spec fn spec_size(&self) -> (int, int, int) {
        (self.size_x as int, self.size_y as int, self.size_z as int)
    }

    /// Internal consistency of the grids.
    pub closed spec fn wf(&self) -> bool {
        &&& 0 <= self.size_x
        &&& 0 <= self.size_y
        &&& 0 <= self.size_z
        &&& self.size_x * self.size_y * self.size_z <= u32::MAX
        &&& self.zsi == self.size_x
        &&& self.ysi == self.size_x * self.size_z
        &&& self.grid@.len() == self.size_x * self.size_y * self.size_z
        &&& self.score_grid@.len() == self.size_x * self.size_y * self.size_z
    }

    /// A well-formed router has a well-formed view.
    pub proof fn lemma_view_wf(&self)
        requires
            self.wf(),
        ensures
            self@.wf(),
            self@.size.0 >= 0 && self@.size.1 >= 0 && self@.size.2 >= 0,
            self@.size.0 <= i32::MAX && self@.size.1 <= i32::MAX && self@.size.2 <= i32::MAX,
    {
    }

    /// A router over an empty grid of the given size.
    pub fn new(size_x: u32, size_y: u32, size_z: u32) -> (r: DetailRouter)
        requires
            size_x <= i32::MAX,
            size_y <= i32::MAX,
            size_z <= i32::MAX,
            size_x * size_y <= u32::MAX,
            size_x * size_y * size_z <= u32::MAX,
            size_x * size_z <= i32::MAX,
        ensures
            r.wf(),
            r@.wf(),
            r@.size == (size_x as int, size_y as int, size_z as int),
            forall|p: (int, int, int)| r@.contains(p) ==> #[trigger] r@.cells[p] == GridCell::Free,
    {
        let capacity = size_x * size_y * size_z;
        let grid: Vec<GridCell> = vec![GridCell::Free; capacity as usize];
        let score_grid: Vec<u64> = vec![0u64; capacity as usize];
        let size_x = size_x as i32;
        let size_y = size_y as i32;
        let size_z = size_z as i32;
        let r = DetailRouter {
            size_x,
            size_y,
            size_z,
            zsi: size_x as usize,
            ysi: (size_x * size_z) as usize,
            grid,
            score_grid,
            current_bounds_min: GridCellPosition::new(0, 0, 0),
            current_bounds_max: GridCellPosition::new(0, 0, 0),
        };
        proof {
            assert forall|p: (int, int, int)| r@.contains(p) implies #[trigger] r@.cells[p] == GridCell::Free by {
                lemma_grid_index(r@.size, p);
            }
        }
        r
    }

    /// The grid index of `pos`, or an error when `pos` is off the grid.
    fn pos_to_idx(&self, pos: GridCellPosition) -> (r: Result<usize, RoutingError>)
        requires
            self.wf(),
        ensures
            match r {
                Ok(i) => self@.contains(pos.key()) && i == grid_index(self@.size, pos.key()) && i < self.grid@.len(),
                Err(e) => !self@.contains(pos.key()) && e == self.out_of_bounds(pos),
            },
    {
        if pos.x < 0 || pos.y < 0 || pos.z < 0 || pos.x >= self.size_x || pos.y >= self.size_y || pos.z >= self.size_z {
            Err(RoutingError::OutOfBounds { pos, bounds: (self.size_x, self.size_y, self.size_z) })
        } else {
            proof {
                lemma_grid_index(self@.size, pos.key());
            }
            let x = pos.x as usize;
            let y = pos.y as usize;
            let z = pos.z as usize;
            Ok(x + z * self.zsi + y * self.ysi)
        }
    }

    /// Number of cells of the grid.
    pub fn cell_count(&self) -> (r: usize)
        requires
            self.wf(),
        ensures
            r == self@.size.0 * self@.size.1 * self@.size.2,
    {
        self.grid.len()
    }

    /// The error reported for an access at `pos` off the grid.
    pub open spec fn out_of_bounds(&self, pos: GridCellPosition) -> RoutingError {
        RoutingError::OutOfBounds { pos, bounds: (self@.size.0 as i32, self@.size.1 as i32, self@.size.2 as i32) }
    }

    /// The cell at `pos`, or an error when `pos` is off the grid.
    pub fn get_cell(&self, pos: GridCellPosition) -> (r: Result<&GridCell, RoutingError>)
        requires
            self.wf(),
        ensures
            match r {
                Ok(c) => self@.contains(pos.key()) && *c == self@.cells[pos.key()],
                Err(e) => !self@.contains(pos.key()) && e == self.out_of_bounds(pos),
            },
    {
        let idx = self.pos_to_idx(pos)?;
        Ok(&self.grid[idx])
    }

    /// A mutable reference to the cell at `pos`, or an error when `pos` is off the grid.
    pub fn get_cell_mut(&mut self, pos: GridCellPosition) -> (r: Result<&mut GridCell, RoutingError>)
        requires
            old(self).wf(),
        ensures
            match r {
                Ok(c) => old(self)@.contains(pos.key()) && *c == old(self)@.cells[pos.key()]
                    && final(self).wf()
                    && final(self)@ == (DetailRouterView { cells: old(self)@.cells.insert(pos.key(), *final(c)), ..old(self)@ }),
                Err(e) => !old(self)@.contains(pos.key()) && e == old(self).out_of_bounds(pos) && *final(self) == *old(self),
            },
    {
        let idx = match self.pos_to_idx(pos) {
            Ok(i) => i,
            Err(e) => return Err(e),
        };
        proof {
            lemma_detail_view_update(self@.size, self.grid@, pos.key());
        }
        Ok(&mut self.grid[idx])
    }

    /// Set the cell at `pos`, or report an error when `pos` is off the grid.
    pub fn set_cell(&mut self, pos: GridCellPosition, c: GridCell) -> (r: Result<(), RoutingError>)
        requires
            old(self).wf(),
        ensures
            final(self).wf(),
            old(self)@.contains(pos.key()) ==> r is Ok
                && final(self)@ == (DetailRouterView { cells: old(self)@.cells.insert(pos.key(), c), ..old(self)@ }),
            !old(self)@.contains(pos.key()) ==> r == Err::<(), RoutingError>(old(self).out_of_bounds(pos)) && final(self)@ == old(self)@,
    {
        let cell = self.get_cell_mut(pos)?;
        *cell = c;
        Ok(())
    }

    /// Whether `pos` lies in the box the current search is confined to.
    fn is_in_bounds(&self, pos: GridCellPosition) -> (r: bool)
        ensures
            r == pos.in_bounds_of(self.current_bounds_min, self.current_bounds_max),
    {
        pos.in_bounding_box(&self.current_bounds_min, &self.current_bounds_max)
    }

    /// Whether net `id` may not enter `pos`.
    fn is_blocked(&self, pos: GridCellPosition, id: RouteId) -> (r: bool)
        requires
            self.wf(),
        ensures
            r == self@.blocked_for(pos.key(), id),
    {
        match self.get_cell(pos) {
            Ok(cell) => match cell {
                GridCell::Free => false,
                GridCell::Blocked => true,
                GridCell::Occupied(_, s) => *s != id,
            },
            Err(_) => true,
        }
    }

    /// Free every cell held by net `id`.
    pub fn rip_up(&mut self, id: RouteId) -> (r: Result<(), RoutingError>)
        requires
            old(self).wf(),
        ensures
            final(self).wf(),
            r is Ok,
            final(self)@ == old(self)@.without_route(id),
    {
        let n = self.grid.len();
        let mut i: usize = 0;
        while i < n
            invariant
                n == self.grid@.len(),
                i <= n,
                self.size_x == old(self).size_x,
                self.size_y == old(self).size_y,
                self.size_z == old(self).size_z,
                self.zsi == old(self).zsi,
                self.ysi == old(self).ysi,
                self.score_grid == old(self).score_grid,
                n == old(self).grid@.len(),
                forall|j: int| 0 <= j < i ==> self.grid@[j] == (if cell_owner(old(self).grid@[j]) == Some(id) {
                    GridCell::Free
                } else {
                    old(self).grid@[j]
                }),
                forall|j: int| i <= j < n ==> self.grid@[j] == old(self).grid@[j],
            decreases n - i,
        {
            let cell = self.grid[i];
            match cell {
                GridCell::Occupied(_, o) => {
                    if o == id {
                        self.grid.set(i, GridCell::Free);
                    }
                },
                _ => {},
            }
            i = i + 1;
        }
        proof {
            let a = self@;
            let b = old(self)@.without_route(id);
            assert forall|p: (int, int, int)| #[trigger] a.cells.contains_key(p) implies a.cells[p] == b.cells[p] by {
                lemma_grid_index(a.size, p);
            }
            assert(a.cells =~= b.cells);
        }
        Ok(())
    }
}

/// Position of a direction in the order the router tries them.
pub open spec fn dir_index(d: Direction) -> int {
    match d {
        Direction::North => 0,
        Direction::South => 1,
        Direction::East => 2,
        Direction::West => 3,
        Direction::Up => 4,
        Direction::Down => 5,
    }
}

/// The cell one step from `p` in direction `d`.
pub open spec fn step(p: (int, int, int), d: Direction) -> (int, int, int) {
    let (dx, dy, dz) = direction_delta(d);
    (p.0 + dx, p.1 + dy, p.2 + dz)
}

impl DetailRouter {
    /// The neighbours of `pos` that net `id` may enter, leaving out the one in direction
    /// `illegal`, in the order North, South, East, West, Up, Down; each with the direction
    /// of the step that reaches it.
    fn neighbors(&self, pos: GridCellPosition, illegal: Direction, id: RouteId) -> (r: Vec<(GridCellPosition, Direction)>)
        requires
            self.wf(),
            self@.contains(pos.key()),
        ensures
            r@.len() <= 6,
            forall|i: int| 0 <= i < r@.len() ==> (#[trigger] r@[i]).0.key() == step(pos.key(), r@[i].1)
                && r@[i].1 != illegal && !self@.blocked_for(r@[i].0.key(), id),
            forall|i: int, j: int| 0 <= i < j < r@.len() ==> dir_index((#[trigger] r@[i]).1) < dir_index((#[trigger] r@[j]).1),
            forall|d: Direction| d != illegal && !self@.blocked_for(step(pos.key(), d), id)
                ==> exists|i: int| 0 <= i < r@.len() && (#[trigger] r@[i]).1 == d,
    {
        let mut r: Vec<(GridCellPosition, Direction)> = Vec::new();
        let dirs = crate::block_storage::all_directions();
        let mut k: usize = 0;
        while k < 6
            invariant
                self.wf(),
                self@.contains(pos.key()),
                dirs@ == crate::block_storage::spec_all_directions(),
                k <= 6,
                r@.len() <= k,
                forall|i: int| 0 <= i < r@.len() ==> (#[trigger] r@[i]).0.key() == step(pos.key(), r@[i].1)
                    && r@[i].1 != illegal && !self@.blocked_for(r@[i].0.key(), id) && dir_index(r@[i].1) < k,
                forall|i: int, j: int| 0 <= i < j < r@.len() ==> dir_index((#[trigger] r@[i]).1) < dir_index((#[trigger] r@[j]).1),
                forall|d: Direction| dir_index(d) < k && d != illegal && !self@.blocked_for(step(pos.key(), d), id)
                    ==> exists|i: int| 0 <= i < r@.len() && (#[trigger] r@[i]).1 == d,
            decreases 6 - k,
        {
            let d = dirs[k];
            proof {
                self.lemma_view_wf();
                assert(dir_index(d) == k);
            }
            let neighbor = pos.offset(d);
            let ghost r0 = r@;
            if d != illegal && !self.is_blocked(neighbor, id) {
                r.push((neighbor, d));
                proof {
                    assert(r@[r@.len() - 1].1 == d);
                }
            }
            proof {
                assert forall|e: Direction| dir_index(e) < k + 1 && e != illegal && !self@.blocked_for(step(pos.key(), e), id)
                    implies exists|i: int| 0 <= i < r@.len() && (#[trigger] r@[i]).1 == e by {
                    if dir_index(e) == k {
                        assert(e == d);
                        assert(r@[r@.len() - 1].1 == d);
                    } else {
                        let i = choose|i: int| 0 <= i < r0.len() && (#[trigger] r0[i]).1 == e;
                        assert(r@[i] == r0[i]);
                    }
                }
            }
            k = k + 1;
        }
        proof {
            assert forall|d: Direction| d != illegal && !self@.blocked_for(step(pos.key(), d), id)
                implies exists|i: int| 0 <= i < r@.len() && (#[trigger] r@[i]).1 == d by {
                assert(dir_index(d) < 6);
            }
        }
        r
    }
}

/// `cells` is a walk from `from`, a cell of net `id`, to `to` over cells that net `id` may
/// enter; `dirs[i]` points from `cells[i]` back to `cells[i - 1]`. No cell is visited twice.
pub open spec fn is_trace(v: DetailRouterView, cells: Seq<(int, int, int)>, dirs: Seq<Direction>, from: (int, int, int), to: (int, int, int), id: RouteId) -> bool {
    &&& cells.len() >= 1
    &&& dirs.len() == cells.len()
    &&& cells[0] == from
    &&& cells.last() == to
    &&& v.owned_by(from, id)
    &&& forall|i: int| 1 <= i < cells.len() ==> !v.blocked_for(#[trigger] cells[i], id) && step(cells[i], dirs[i]) == cells[i - 1]
    &&& forall|i: int, j: int| 0 <= i < j < cells.len() ==> #[trigger] cells[i] != #[trigger] cells[j]
}

/// The grid with `cells[i]` (for `i >= 1`) occupied by net `id`, pointing in direction `dirs[i]`.
pub open spec fn with_trace(v: DetailRouterView, cells: Seq<(int, int, int)>, dirs: Seq<Direction>, id: RouteId) -> DetailRouterView
    decreases cells.len(),
{
    if cells.len() <= 1 || dirs.len() != cells.len() {
        v
    } else {
        let p = with_trace(v, cells.drop_last(), dirs.drop_last(), id);
        DetailRouterView { cells: p.cells.insert(cells.last(), GridCell::Occupied(dirs.last(), id)), ..p }
    }
}

#[verifier::rlimit(40)]
proof fn lemma_with_trace_basics(v: DetailRouterView, cells: Seq<(int, int, int)>, dirs: Seq<Direction>, id: RouteId)
    requires
        v.wf(),
        dirs.len() == cells.len(),
        forall|i: int| 1 <= i < cells.len() ==> v.contains(#[trigger] cells[i]),
    ensures
        with_trace(v, cells, dirs, id).wf(),
        with_trace(v, cells, dirs, id).size == v.size,
        forall|p: (int, int, int)| (forall|i: int| 1 <= i < cells.len() ==> cells[i] != p)
            ==> #[trigger] with_trace(v, cells, dirs, id).cells[p] == v.cells[p],
        forall|i: int| 1 <= i < cells.len() && (forall|j: int| i < j < cells.len() ==> cells[j] != cells[i])
            ==> with_trace(v, cells, dirs, id).cells[#[trigger] cells[i]] == GridCell::Occupied(dirs[i], id),
    decreases cells.len(),
{
    if cells.len() > 1 {
        let c2 = cells.drop_last();
        let d2 = dirs.drop_last();
        lemma_with_trace_basics(v, c2, d2, id);
        let w = with_trace(v, cells, dirs, id);
        assert forall|p: (int, int, int)| #[trigger] w.cells.contains_key(p) <==> w.contains(p) by {
            if p == cells.last() {
                assert(v.contains(cells[cells.len() - 1]));
            }
        }
        assert forall|p: (int, int, int)| (forall|i: int| 1 <= i < cells.len() ==> cells[i] != p)
            implies #[trigger] w.cells[p] == v.cells[p] by {
            assert(cells[cells.len() - 1] != p);
            assert forall|i: int| 1 <= i < c2.len() implies c2[i] != p by {
                assert(c2[i] == cells[i]);
            }
        }
        assert forall|i: int| 1 <= i < cells.len() && (forall|j: int| i < j < cells.len() ==> cells[j] != cells[i])
            implies w.cells[#[trigger] cells[i]] == GridCell::Occupied(dirs[i], id) by {
            if i < cells.len() - 1 {
                assert(cells[cells.len() - 1] != cells[i]);
                assert(c2[i] == cells[i]);
                assert(d2[i] == dirs[i]);
                assert forall|j: int| i < j < c2.len() implies c2[j] != c2[i] by {
                    assert(c2[j] == cells[j]);
                }
            }
        }
    }
}

proof fn lemma_with_trace_push(v: DetailRouterView, cells: Seq<(int, int, int)>, dirs: Seq<Direction>, id: RouteId, c: (int, int, int), d: Direction)
    requires
        dirs.len() == cells.len(),
        cells.len() >= 1,
    ensures
        with_trace(v, cells.push(c), dirs.push(d), id) == (DetailRouterView {
            cells: with_trace(v, cells, dirs, id).cells.insert(c, GridCell::Occupied(d, id)),
            ..with_trace(v, cells, dirs, id)
        }),
{
    assert(cells.push(c).drop_last() =~= cells);
    assert(dirs.push(d).drop_last() =~= dirs);
}

/// Stepping from `p` in direction `d` reaches a cell of grid `g` with a lower score than `p`
/// that is `s1` or open to net `id`.
pub open spec fn lower_step(g: DetailRouterView, scores: Seq<u64>, p: (int, int, int), d: Direction, s1: (int, int, int), id: RouteId) -> bool {
    let m = step(p, d);
    &&& in_box(g.size, m)
    &&& scores[grid_index(g.size, m)] < scores[grid_index(g.size, p)]
    &&& (m == s1 || !g.blocked_for(m, id))
}

/// Every scored cell of grid `g` other than `s1` has a step down to a lower score (see
/// [`lower_step`]).
#[verifier::opaque]
pub open spec fn descends_to(g: DetailRouterView, scores: Seq<u64>, s1: (int, int, int), id: RouteId) -> bool {
    forall|p: (int, int, int)| in_box(g.size, p) && scores[grid_index(g.size, p)] != u64::MAX && p != s1
        ==> exists|d: Direction| #[trigger] lower_step(g, scores, p, d, s1, id)
}

/// During a backtrack along decreasing scores, from a cell `here` (the last of `cells`) other
/// than `sink`: some direction other than the one back along the walk steps down to a lower
/// score, onto a cell the walk so far leaves open to net `id`.
#[verifier::rlimit(60)]
#[verifier::spinoff_prover]
proof fn lemma_backtrack_step(v: DetailRouterView, w: DetailRouterView, scores: Seq<u64>, cells: Seq<(int, int, int)>,
    dirs: Seq<Direction>, id: RouteId, sink: (int, int, int), start_direction: Direction, min_direction: Direction) -> (dw: Direction)
    requires
        v.wf(),
        scores.len() == v.size.0 * v.size.1 * v.size.2,
        descends_to(v, scores, sink, id),
        cells.len() >= 1,
        dirs.len() == cells.len(),
        cells[0] != sink ==> lower_step(v, scores, cells[0], start_direction, sink, id),
        cells.last() != sink,
        scores[grid_index(v.size, cells.last())] != u64::MAX,
        forall|i: int| 0 <= i < cells.len() ==> v.contains(#[trigger] cells[i]),
        forall|i: int| 1 <= i < cells.len() ==> step(#[trigger] cells[i], dirs[i]) == cells[i - 1],
        forall|i: int, j: int| 0 <= i < j < cells.len() ==> scores[grid_index(v.size, #[trigger] cells[i])]
            > scores[grid_index(v.size, #[trigger] cells[j])],
        dirs.last() == min_direction,
        cells.len() == 1 ==> min_direction == spec_mirror(start_direction),
        forall|i: int| 0 <= i < cells.len() - 1 ==> #[trigger] cells[i] != sink,
        !v.blocked_for(sink, id) || cells[0] == sink,
        w == with_trace(v, cells, dirs, id),
    ensures
        lower_step(v, scores, cells.last(), dw, sink, id),
        dw != min_direction,
        !w.blocked_for(step(cells.last(), dw), id),
{
    let size = v.size;
    let here = cells.last();
    let dw = if cells.len() > 1 {
        assert(exists|d: Direction| #[trigger] lower_step(v, scores, here, d, sink, id)) by {
            reveal(descends_to);
            assert(in_box(size, here));
        }
        let d = choose|d: Direction| lower_step(v, scores, here, d, sink, id);
        assert(d != min_direction) by {
            assert(step(here, dirs[cells.len() - 1]) == cells[cells.len() - 2]);
            assert(scores[grid_index(size, cells[cells.len() - 2])] > scores[grid_index(size, here)]);
        }
        let prev = cells[cells.len() - 2];
        assert(step(cells[cells.len() - 1], dirs[cells.len() - 1]) == cells[cells.len() - 1 - 1]);
        assert(scores[grid_index(size, prev)] > scores[grid_index(size, here)]);
        d
    } else {
        lemma_mirror_involution(start_direction);
        start_direction
    };
    assert(lower_step(v, scores, here, dw, sink, id));
    let m = step(here, dw);
    lemma_with_trace_basics(v, cells, dirs, id);
    assert forall|i: int| 1 <= i < cells.len() implies cells[i] != m by {
        if i < cells.len() - 1 {
            assert(scores[grid_index(size, cells[i])] > scores[grid_index(size, cells[cells.len() - 1])]);
        }
    }
    assert(w.cells[m] == v.cells[m]);
    if cells.len() > 1 {
        assert(cells[0] != sink);
    }
    dw
}

impl DetailRouter {
    /// Walk back from `first_net_touch` (a cell of the net reached by the search) to `sink`
    /// along strictly decreasing scores, recording in each cell the direction back towards
    /// the net.
    fn do_backtrack(&mut self, sink: GridCellPosition, first_net_touch: GridCellPosition, start_direction: Direction, id: RouteId) -> (r: Result<(), RoutingError>)
        requires
            old(self).wf(),
            old(self)@.owned_by(first_net_touch.key(), id),
            old(self).score_grid@[grid_index(old(self)@.size, first_net_touch.key())] != u64::MAX,
            descends_to(old(self)@, old(self).score_grid@, sink.key(), id),
            first_net_touch != sink ==> lower_step(old(self)@, old(self).score_grid@, first_net_touch.key(), start_direction, sink.key(), id),
        ensures
            final(self).wf(),
            final(self)@.size == old(self)@.size,
            !old(self)@.blocked_for(sink.key(), id) || first_net_touch == sink ==> r is Ok,
            r is Ok ==> exists|cells: Seq<(int, int, int)>, dirs: Seq<Direction>|
                is_trace(old(self)@, cells, dirs, first_net_touch.key(), sink.key(), id)
                    && final(self)@ == with_trace(old(self)@, cells, dirs, id)
                    && forall|i: int| 0 <= i < cells.len() ==> #[trigger] old(self).score_grid@[grid_index(old(self)@.size, cells[i])] != u64::MAX,
            r is Err ==> r == Err::<(), RoutingError>(RoutingError::Unroutable)
                && forall|p: (int, int, int)| old(self)@.contains(p) ==> #[trigger] final(self)@.cells[p] == old(self)@.cells[p]
                    || (cell_owner(final(self)@.cells[p]) == Some(id) && !old(self)@.blocked_for(p, id)),
    {
        let ghost v = self@;
        let ghost scores = self.score_grid@;
        let ghost size = self@.size;
        let mut min_direction = start_direction.mirror();
        let mut min_position = first_net_touch;
        let first_idx = match self.pos_to_idx(min_position) {
            Ok(i) => i,
            Err(e) => return Err(RoutingError::Unroutable),
        };
        let mut min_cost = self.score_grid[first_idx];
        let mut last_min_pos = min_position;
        let ghost mut cells: Seq<(int, int, int)> = seq![first_net_touch.key()];
        let ghost mut dirs: Seq<Direction> = seq![min_direction];
        let ghost ok_case = !v.blocked_for(sink.key(), id) || first_net_touch == sink;
        proof {
            self.lemma_view_wf();
        }
        while min_position != sink
            invariant
                ok_case == (!v.blocked_for(sink.key(), id) || first_net_touch == sink),
                descends_to(v, scores, sink.key(), id),
                first_net_touch != sink ==> lower_step(v, scores, first_net_touch.key(), start_direction, sink.key(), id),
                min_cost != u64::MAX,
                dirs.last() == min_direction,
                cells.len() == 1 ==> min_direction == spec_mirror(start_direction) && min_position == first_net_touch,
                forall|i: int| 0 <= i < cells.len() - 1 ==> #[trigger] cells[i] != sink.key(),
                self.wf(),
                self@.size == size,
                self.score_grid@ == scores,
                v == old(self)@,
                v.wf(),
                v.size == size,
                scores.len() == size.0 * size.1 * size.2,
                v.owned_by(first_net_touch.key(), id),
                cells.len() >= 1,
                dirs.len() == cells.len(),
                cells[0] == first_net_touch.key(),
                cells.last() == min_position.key(),
                last_min_pos == min_position,
                v.contains(min_position.key()),
                min_cost == scores[grid_index(size, min_position.key())],
                forall|i: int| 0 <= i < cells.len() ==> v.contains(#[trigger] cells[i]),
                forall|i: int| 1 <= i < cells.len() ==> !v.blocked_for(#[trigger] cells[i], id) && step(cells[i], dirs[i]) == cells[i - 1],
                forall|i: int, j: int| 0 <= i < j < cells.len() ==> scores[grid_index(size, #[trigger] cells[i])]
                    > scores[grid_index(size, #[trigger] cells[j])],
                self@ == with_trace(v, cells, dirs, id),
            decreases min_cost,
        {
            let here = min_position;
            let here_cost = min_cost;
            let nbs = self.neighbors(min_position, min_direction, id);
            let ghost w = self@;
            let ghost mut dw: Direction = start_direction;
            proof {
                if ok_case {
                    dw = lemma_backtrack_step(v, w, scores, cells, dirs, id, sink.key(), start_direction, min_direction);
                    assert(exists|i: int| 0 <= i < nbs@.len() && (#[trigger] nbs@[i]).1 == dw);
                }
            }
            let mut k: usize = 0;
            while k < nbs.len()
                invariant
                    forall|i: int| 0 <= i < k ==> min_cost <= scores[grid_index(size, (#[trigger] nbs@[i]).0.key())],
                    self.wf(),
                    self@ == w,
                    self@.size == size,
                    self.score_grid@ == scores,
                    forall|i: int| 0 <= i < nbs@.len() ==> (#[trigger] nbs@[i]).0.key() == step(here.key(), nbs@[i].1)
                        && !w.blocked_for(nbs@[i].0.key(), id),
                    k <= nbs@.len(),
                    min_cost <= here_cost,
                    min_cost == here_cost ==> min_position == here,
                    min_cost < here_cost ==> w.contains(min_position.key())
                        && !w.blocked_for(min_position.key(), id)
                        && step(min_position.key(), min_direction) == here.key()
                        && scores[grid_index(size, min_position.key())] == min_cost,
                decreases nbs@.len() - k,
            {
                let (nb, d) = nbs[k];
                let nidx = match self.pos_to_idx(nb) {
                    Ok(i) => i,
                    Err(_) => 0,
                };
                let sc = self.score_grid[nidx];
                if sc < min_cost {
                    min_cost = sc;
                    min_position = nb;
                    min_direction = d.mirror();
                    proof {
                        assert(nb.key() == step(here.key(), d));
                    }
                }
                k = k + 1;
            }
            proof {
                if ok_case {
                    let i = choose|i: int| 0 <= i < nbs@.len() && (#[trigger] nbs@[i]).1 == dw;
                    assert(nbs@[i].0.key() == step(here.key(), dw));
                    assert(min_cost < here_cost);
                }
            }
            let idx = match self.pos_to_idx(min_position) {
                Ok(i) => i,
                Err(_) => return Err(RoutingError::Unroutable),
            };
            proof {
                lemma_detail_view_update(size, self.grid@, min_position.key());
            }
            let ghost g_before = self.grid@;
            self.grid.set(idx, GridCell::Occupied(min_direction, id));
            proof {
                assert(self.grid@ == g_before.update(idx as int, GridCell::Occupied(min_direction, id)));
                assert(self@ == detail_view(size, g_before.update(grid_index(size, min_position.key()), GridCell::Occupied(min_direction, id))));
                assert(self@ == (DetailRouterView { cells: w.cells.insert(min_position.key(), GridCell::Occupied(min_direction, id)), ..w }));
            }
            if last_min_pos == min_position {
                proof {
                    assert(!ok_case);
                    lemma_with_trace_basics(v, cells, dirs, id);
                    assert forall|p: (int, int, int)| v.contains(p) implies #[trigger] self@.cells[p] == v.cells[p]
                        || (cell_owner(self@.cells[p]) == Some(id) && !v.blocked_for(p, id)) by {
                        if p == min_position.key() {
                            if cells.len() > 1 {
                                assert(!v.blocked_for(cells[cells.len() - 1], id));
                            }
                        } else {
                            if exists|i: int| 1 <= i < cells.len() && cells[i] == p {
                                let i = choose|i: int| 1 <= i < cells.len() && cells[i] == p;
                                assert forall|j: int| i < j < cells.len() implies cells[j] != cells[i] by {
                                    assert(scores[grid_index(size, cells[i])] > scores[grid_index(size, cells[j])]);
                                }
                            }
                        }
                    }
                }
                return Err(RoutingError::Unroutable);
            }
            proof {
                lemma_with_trace_basics(v, cells, dirs, id);
                let c = min_position.key();
                // The new cell is off the walk so far: its score is below every score on it.
                assert forall|i: int| 0 <= i < cells.len() implies scores[grid_index(size, #[trigger] cells[i])] > min_cost by {
                    if i < cells.len() - 1 {
                        assert(scores[grid_index(size, cells[i])] > scores[grid_index(size, cells[cells.len() - 1])]);
                    }
                }
                assert forall|i: int| 1 <= i < cells.len() implies cells[i] != c by {
                    assert(scores[grid_index(size, cells[i])] > min_cost);
                }
                assert(w.cells[c] == v.cells[c]);
                assert(!v.blocked_for(c, id));
                lemma_with_trace_push(v, cells, dirs, id, c, min_direction);
                cells = cells.push(c);
                dirs = dirs.push(min_direction);
                assert forall|i: int, j: int| 0 <= i < j < cells.len() implies scores[grid_index(size, #[trigger] cells[i])]
                    > scores[grid_index(size, #[trigger] cells[j])] by {
                    if j == cells.len() - 1 {
                        assert(scores[grid_index(size, cells[i])] > min_cost);
                    }
                }
            }
            last_min_pos = min_position;
        }
        proof {
            assert forall|i: int, j: int| 0 <= i < j < cells.len() implies #[trigger] cells[i] != #[trigger] cells[j] by {
                assert(scores[grid_index(size, cells[i])] > scores[grid_index(size, cells[j])]);
            }
            assert(is_trace(v, cells, dirs, first_net_touch.key(), sink.key(), id));
            assert forall|i: int| 0 <= i < cells.len() implies #[trigger] scores[grid_index(size, cells[i])] != u64::MAX by {
                if i > 0 {
                    assert(scores[grid_index(size, cells[0])] > scores[grid_index(size, cells[i])]);
                }
            }
        }
        Ok(())
    }
}

/// An entry of the search queue: a cell, the cost of reaching it, and the direction the
/// search may not continue in from there (back where it came from).
#[derive(Clone, Copy)]
struct QueueItem {
    cost: u64,
    pos: GridCellPosition,
    illegal_direction: Direction,
}

/// Largest cost of one search step: a free cell plus a change of layer.
pub open spec fn max_step_cost() -> int {
    1100
}

spec fn detail_search_inv(size: (int, int, int), scores: Seq<u64>, q: Seq<QueueItem>, first: (int, int, int), level: int, seen: Set<int>) -> bool {
    let n = size.0 * size.1 * size.2;
    &&& scores.len() == n
    &&& 0 <= level
    &&& forall|i: int| 0 <= i < q.len() ==> (in_box(size, (#[trigger] q[i]).pos.key()) || (q[i].pos.key() == first && q[i].cost == 0))
    &&& forall|i: int| 0 <= i < q.len() ==> level <= (#[trigger] q[i]).cost <= level + max_step_cost()
    &&& forall|p: (int, int, int)| in_box(size, p) && #[trigger] scores[grid_index(size, p)] != u64::MAX
        ==> scores[grid_index(size, p)] <= level
    &&& seen.finite()
    &&& forall|j: int| #[trigger] seen.contains(j) <==> 0 <= j < n && scores[j] != u64::MAX
    &&& seen.len() == 0 ==> level == 0 && forall|i: int| 0 <= i < q.len() ==> (#[trigger] q[i]).cost == 0
    &&& seen.len() > 0 ==> level <= max_step_cost() * (seen.len() - 1)
}

/// Low corner of the box a search between pins at `driver` and `sink` is confined to: two
/// cells below the lower pin on each axis, but not below zero.
pub open spec fn search_lo(driver: GridCellPosition, sink: GridCellPosition) -> (int, int, int) {
    let lx: int = if driver.x < sink.x { driver.x as int } else { sink.x as int };
    let ly: int = if driver.y < sink.y { driver.y as int } else { sink.y as int };
    let lz: int = if driver.z < sink.z { driver.z as int } else { sink.z as int };
    (if lx - 2 > 0 { lx - 2 } else { 0 }, if ly - 2 > 0 { ly - 2 } else { 0 }, if lz - 2 > 0 { lz - 2 } else { 0 })
}

/// High corner (exclusive) of that box: two cells above the higher pin on each axis, but not
/// past a grid of the given size.
pub open spec fn search_hi(driver: GridCellPosition, sink: GridCellPosition, size: (int, int, int)) -> (int, int, int) {
    let hx: int = if driver.x > sink.x { driver.x as int } else { sink.x as int };
    let hy: int = if driver.y > sink.y { driver.y as int } else { sink.y as int };
    let hz: int = if driver.z > sink.z { driver.z as int } else { sink.z as int };
    (
        if hx + 2 < size.0 { hx + 2 } else { size.0 },
        if hy + 2 < size.1 { hy + 2 } else { size.1 },
        if hz + 2 < size.2 { hz + 2 } else { size.2 },
    )
}

/// Whether cell `m` lies in the box `[lo, hi)`.
pub open spec fn in_search_box(lo: (int, int, int), hi: (int, int, int), m: (int, int, int)) -> bool {
    lo.0 <= m.0 < hi.0 && lo.1 <= m.1 < hi.1 && lo.2 <= m.2 < hi.2
}

/// Whether the search may enter cell `m`: inside the box `[lo, hi)` and not blocked for net `id`.
pub open spec fn search_open(g: DetailRouterView, lo: (int, int, int), hi: (int, int, int), m: (int, int, int), id: RouteId) -> bool {
    &&& in_search_box(lo, hi, m)
    &&& !g.blocked_for(m, id)
}

/// Whether the search from `s1` may stop at cell `c`: a cell of net `id`, and not `s1` itself
/// unless `s1` is `d1`.
pub open spec fn route_target(g: DetailRouterView, c: (int, int, int), id: RouteId, s1: (int, int, int), d1: (int, int, int)) -> bool {
    g.owned_by(c, id) && (c != s1 || s1 == d1)
}

/// `cells` is a walk the search can take from `s1`: each next cell is one step (`dirs[i]`)
/// from the one before and open to the search, and no step leaves `s1` in direction `back`.
pub open spec fn search_walk(g: DetailRouterView, lo: (int, int, int), hi: (int, int, int), id: RouteId,
    s1: (int, int, int), back: Direction, cells: Seq<(int, int, int)>, dirs: Seq<Direction>) -> bool
{
    &&& cells.len() >= 1
    &&& cells[0] == s1
    &&& dirs.len() + 1 == cells.len()
    &&& forall|i: int| 0 <= i < dirs.len() ==> cells[i + 1] == step(cells[i], #[trigger] dirs[i])
        && search_open(g, lo, hi, cells[i + 1], id) && !(cells[i] == s1 && dirs[i] == back)
}

/// Whether some walk of the search from `s1` (see [`search_walk`]) ends at a target (see
/// [`route_target`]).
pub open spec fn route_findable(g: DetailRouterView, lo: (int, int, int), hi: (int, int, int), id: RouteId,
    s1: (int, int, int), back: Direction, d1: (int, int, int)) -> bool
{
    exists|cells: Seq<(int, int, int)>, dirs: Seq<Direction>|
        #[trigger] search_walk(g, lo, hi, id, s1, back, cells, dirs) && route_target(g, cells.last(), id, s1, d1)
}

/// A queue entry is `s1`, or a cell open to the search that one step in its forbidden
/// direction leads back from to a cell already scored below the entry's cost, which is `s1`
/// or open to net `id`; a step back to `s1` is not one in direction `back`, mirrored.
#[verifier::opaque]
spec fn queue_item_ok(g: DetailRouterView, scores: Seq<u64>, it: QueueItem, s1: (int, int, int), id: RouteId,
    lo: (int, int, int), hi: (int, int, int), back: Direction) -> bool
{
    let m = step(it.pos.key(), it.illegal_direction);
    it.pos.key() == s1 || {
        &&& in_box(g.size, m)
        &&& scores[grid_index(g.size, m)] < it.cost
        &&& (m == s1 || !g.blocked_for(m, id))
        &&& search_open(g, lo, hi, it.pos.key(), id)
        &&& (m == s1 ==> spec_mirror(it.illegal_direction) != back)
    }
}

/// The scored cells are the keys of `ill`, each mapped to the direction it may not be left in.
#[verifier::opaque]
spec fn ill_dom(size: (int, int, int), scores: Seq<u64>, ill: Map<(int, int, int), Direction>) -> bool {
    forall|p: (int, int, int)| #[trigger] ill.dom().contains(p) <==> in_box(size, p) && scores[grid_index(size, p)] != u64::MAX
}

/// Each scored cell other than `s1` is open to the search and steps down, in its forbidden
/// direction, to a lower score (never leaving `s1` in direction `back`); `s1` itself may not
/// be left in direction `back`.
#[verifier::opaque]
spec fn ill_ok(g: DetailRouterView, scores: Seq<u64>, ill: Map<(int, int, int), Direction>, s1: (int, int, int), id: RouteId,
    lo: (int, int, int), hi: (int, int, int), back: Direction) -> bool
{
    &&& forall|p: (int, int, int)| #[trigger] ill.dom().contains(p) && p != s1 ==> lower_step(g, scores, p, ill[p], s1, id)
        && search_open(g, lo, hi, p, id) && (step(p, ill[p]) == s1 ==> spec_mirror(ill[p]) != back)
    &&& ill.dom().contains(s1) ==> ill[s1] == back
}

/// Whether some queue entry is at cell `m`.
spec fn queue_has(q: Seq<QueueItem>, m: (int, int, int)) -> bool {
    exists|i: int| 0 <= i < q.len() && (#[trigger] q[i]).pos.key() == m
}

/// Every step the search may take from a scored cell (other than in the cell's forbidden
/// direction) leads to a scored cell or to one waiting in the queue; cell `skip` is exempt.
#[verifier::opaque]
spec fn search_closed(g: DetailRouterView, ill: Map<(int, int, int), Direction>, q: Seq<QueueItem>, id: RouteId,
    lo: (int, int, int), hi: (int, int, int), skip: Option<(int, int, int)>) -> bool
{
    forall|p: (int, int, int), d: Direction| #![trigger ill.dom().contains(p), step(p, d)]
        ill.dom().contains(p) && skip != Some(p) && d != ill[p] && search_open(g, lo, hi, step(p, d), id)
            ==> ill.dom().contains(step(p, d)) || queue_has(q, step(p, d))
}

/// Stepping in a direction and then in its mirror gets back to the start.
proof fn lemma_step_mirror(p: (int, int, int), d: Direction)
    ensures
        step(step(p, d), spec_mirror(d)) == p,
{
}

/// Giving a score to an unscored cell `p0` from a queue entry that is in order keeps the
/// scored cells in order.
proof fn lemma_ill_after_score(g: DetailRouterView, s_old: Seq<u64>, s_new: Seq<u64>, ill: Map<(int, int, int), Direction>,
    it: QueueItem, s1: (int, int, int), id: RouteId, lo: (int, int, int), hi: (int, int, int), back: Direction)
    requires
        s_old.len() == g.size.0 * g.size.1 * g.size.2,
        0 <= g.size.0 && 0 <= g.size.1 && 0 <= g.size.2,
        in_box(g.size, it.pos.key()),
        s_old[grid_index(g.size, it.pos.key())] == u64::MAX,
        s_new == s_old.update(grid_index(g.size, it.pos.key()), it.cost),
        ill_dom(g.size, s_old, ill),
        ill_ok(g, s_old, ill, s1, id, lo, hi, back),
        queue_item_ok(g, s_old, it, s1, id, lo, hi, back),
        it.pos.key() == s1 ==> it.illegal_direction == back,
        it.cost < u64::MAX,
    ensures
        ill_dom(g.size, s_new, ill.insert(it.pos.key(), it.illegal_direction)),
        ill_ok(g, s_new, ill.insert(it.pos.key(), it.illegal_direction), s1, id, lo, hi, back),
        descends_to(g, s_new, s1, id),
        it.pos.key() != s1 ==> lower_step(g, s_new, it.pos.key(), it.illegal_direction, s1, id),
        it.pos.key() == s1 || search_open(g, lo, hi, it.pos.key(), id),
{
    reveal(ill_dom);
    reveal(ill_ok);
    reveal(queue_item_ok);
    let size = g.size;
    let p0 = it.pos.key();
    let ill2 = ill.insert(p0, it.illegal_direction);
    lemma_grid_index(size, p0);
    assert forall|p: (int, int, int)| #[trigger] ill2.dom().contains(p) <==> in_box(size, p) && s_new[grid_index(size, p)] != u64::MAX by {
        assert(ill.dom().contains(p) <==> in_box(size, p) && s_old[grid_index(size, p)] != u64::MAX);
        if in_box(size, p) {
            lemma_grid_index(size, p);
            if p != p0 {
                lemma_grid_index_injective(size, p, p0);
            }
        }
    }
    assert forall|p: (int, int, int)| #[trigger] ill2.dom().contains(p) && p != s1 implies lower_step(g, s_new, p, ill2[p], s1, id)
        && search_open(g, lo, hi, p, id) && (step(p, ill2[p]) == s1 ==> spec_mirror(ill2[p]) != back) by {
        lemma_grid_index(size, p);
        if p == p0 {
            let m = step(p0, it.illegal_direction);
            lemma_grid_index(size, m);
        } else {
            assert(ill.dom().contains(p));
            lemma_grid_index_injective(size, p, p0);
            let m = step(p, ill[p]);
            lemma_grid_index(size, m);
        }
    }
    reveal(descends_to);
    assert forall|p: (int, int, int)| in_box(size, p) && s_new[grid_index(size, p)] != u64::MAX && p != s1
        implies exists|d: Direction| #[trigger] lower_step(g, s_new, p, d, s1, id) by {
        assert(ill2.dom().contains(p));
        assert(lower_step(g, s_new, p, ill2[p], s1, id));
    }
    assert(ill2.dom().contains(p0));
    assert(ill2[p0] == it.illegal_direction);
}

/// Every cell of a walk of the search from `s1` is scored once the search has run out of
/// queue entries without finding a target.
proof fn lemma_walk_scored(g: DetailRouterView, lo: (int, int, int), hi: (int, int, int), id: RouteId,
    s1: (int, int, int), back: Direction, cells: Seq<(int, int, int)>, dirs: Seq<Direction>,
    ill: Map<(int, int, int), Direction>, scores: Seq<u64>)
    requires
        search_walk(g, lo, hi, id, s1, back, cells, dirs),
        ill.dom().contains(s1),
        ill_ok(g, scores, ill, s1, id, lo, hi, back),
        ill_dom(g.size, scores, ill),
        search_closed(g, ill, Seq::empty(), id, lo, hi, None),
    ensures
        ill.dom().contains(cells.last()),
    decreases cells.len(),
{
    reveal(ill_ok);
    reveal(ill_dom);
    reveal(search_closed);
    if cells.len() > 1 {
        let n = cells.len() - 1;
        let c2 = cells.drop_last();
        let d2 = dirs.drop_last();
        assert forall|i: int| 0 <= i < d2.len() implies c2[i + 1] == step(c2[i], #[trigger] d2[i])
            && search_open(g, lo, hi, c2[i + 1], id) && !(c2[i] == s1 && d2[i] == back) by {
            assert(dirs[i] == d2[i]);
        }
        lemma_walk_scored(g, lo, hi, id, s1, back, c2, d2, ill, scores);
        let p = cells[n - 1];
        let d = dirs[n - 1];
        assert(cells[n] == step(p, d));
        assert(ill.dom().contains(p));
        if d != ill[p] {
            assert(ill.dom().contains(step(p, d)) || queue_has(Seq::<QueueItem>::empty(), step(p, d)));
        } else {
            assert(p != s1);
            assert(lower_step(g, scores, p, ill[p], s1, id));
            lemma_grid_index(g.size, step(p, d));
        }
    }
}

/// Following forbidden directions back from a scored cell `t` gives a walk of the search from
/// `s1` to `t`.
proof fn lemma_tree_walk(g: DetailRouterView, lo: (int, int, int), hi: (int, int, int), id: RouteId,
    s1: (int, int, int), back: Direction, ill: Map<(int, int, int), Direction>, scores: Seq<u64>, t: (int, int, int))
    -> (w: (Seq<(int, int, int)>, Seq<Direction>))
    requires
        ill.dom().contains(t),
        ill_ok(g, scores, ill, s1, id, lo, hi, back),
        ill_dom(g.size, scores, ill),
    ensures
        search_walk(g, lo, hi, id, s1, back, w.0, w.1),
        w.0.last() == t,
    decreases scores[grid_index(g.size, t)],
{
    reveal(ill_ok);
    reveal(ill_dom);
    if t == s1 {
        (seq![s1], Seq::empty())
    } else {
        let q = step(t, ill[t]);
        assert(lower_step(g, scores, t, ill[t], s1, id));
        lemma_grid_index(g.size, q);
        let (c, ds) = lemma_tree_walk(g, lo, hi, id, s1, back, ill, scores, q);
        let d = spec_mirror(ill[t]);
        lemma_step_mirror(t, ill[t]);
        lemma_mirror_involution(ill[t]);
        let c2 = c.push(t);
        let ds2 = ds.push(d);
        assert forall|i: int| 0 <= i < ds2.len() implies c2[i + 1] == step(c2[i], #[trigger] ds2[i])
            && search_open(g, lo, hi, c2[i + 1], id) && !(c2[i] == s1 && ds2[i] == back) by {
            if i < ds.len() {
                assert(ds2[i] == ds[i]);
                assert(c2[i] == c[i]);
                assert(c2[i + 1] == c[i + 1]);
            } else {
                assert(c2[i] == c.last());
            }
        }
        (c2, ds2)
    }
}

proof fn lemma_seen_bounded3(seen: Set<int>, n: int)
    requires
        seen.finite(),
        0 <= n,
        forall|k: int| #[trigger] seen.contains(k) ==> 0 <= k < n,
    ensures
        seen.len() <= n,
{
    let full = vstd::set_lib::set_int_range(0, n);
    vstd::set_lib::lemma_int_range(0, n);
    assert(seen.subset_of(full));
    vstd::set_lib::lemma_len_subset(seen, full);
}

/// Following the stored directions of net `id` from cell `p` reaches cell `t` within `fuel`
/// steps, passing only over cells of the net.
pub open spec fn chain_reaches(g: DetailRouterView, p: (int, int, int), t: (int, int, int), id: RouteId, fuel: nat) -> bool
    decreases fuel,
{
    if p == t {
        true
    } else if fuel == 0 {
        false
    } else {
        g.contains(p) && match g.cells[p] {
            GridCell::Occupied(d, o) => o == id && chain_reaches(g, step(p, d), t, id, (fuel - 1) as nat),
            _ => false,
        }
    }
}

/// Number of cells of a grid of size `size`.
pub open spec fn volume_of(size: (int, int, int)) -> nat {
    (size.0 * size.1 * size.2) as nat
}

/// Whether the cell `s1` in front of a sink already holds net `id` and its chain of stored
/// directions leads to the cell `d1` in front of the driver within as many steps as the grid
/// has cells.
pub open spec fn sink_connected(g: DetailRouterView, s1: (int, int, int), d1: (int, int, int), id: RouteId) -> bool {
    g.owned_by(s1, id) && chain_reaches(g, s1, d1, id, volume_of(g.size))
}

/// What routing net `id` from the sink pin at `sink` (leaving in `sink_direction`) to the
/// driver pin at `driver` (entered in `driver_direction`) does to grid `before`, giving grid
/// `after` and result `r`: the cell `d1` in front of the driver is marked as the net's,
/// pointing at the driver; then, when `s1` already holds the net and its chain leads to `d1`
/// (see [`sink_connected`]), nothing else changes; otherwise either a walk of cells over which
/// the net may pass, from a
/// cell of the net to the cell `s1` in front of the sink, is marked as the net's, each cell
/// pointing back along the walk, every cell of it inside the search box and every cell strictly
/// between its ends free before; or the route is reported unroutable, having changed nothing
/// else; or a pin's front cell is off the grid.
/// With both front cells on the grid, the route succeeds exactly when `s1` is open to the net
/// and either is connected already or the search can walk from `s1` to a target (see
/// [`route_findable`]).
pub open spec fn route_outcome(before: DetailRouterView, after: DetailRouterView, driver: GridCellPosition,
    driver_direction: Direction, sink: GridCellPosition, sink_direction: Direction, id: RouteId,
    r: Result<(), RoutingError>) -> bool
{
    let d1 = step(driver.key(), spec_mirror(driver_direction));
    let s1 = step(sink.key(), sink_direction);
    let g1 = DetailRouterView { cells: before.cells.insert(d1, GridCell::Occupied(driver_direction, id)), ..before };
    &&& !before.contains(d1) ==> r == Err::<(), RoutingError>(RoutingError::OutOfBounds {
        pos: GridCellPosition { x: d1.0 as i32, y: d1.1 as i32, z: d1.2 as i32 },
        bounds: (before.size.0 as i32, before.size.1 as i32, before.size.2 as i32),
    }) && after == before
    &&& before.contains(d1) && !before.contains(s1) ==> r == Err::<(), RoutingError>(RoutingError::OutOfBounds {
        pos: GridCellPosition { x: s1.0 as i32, y: s1.1 as i32, z: s1.2 as i32 },
        bounds: (before.size.0 as i32, before.size.1 as i32, before.size.2 as i32),
    }) && after == g1
    &&& before.contains(d1) && before.contains(s1) && sink_connected(g1, s1, d1, id) ==> r is Ok && after == g1
    &&& r is Ok && !(before.contains(s1) && sink_connected(g1, s1, d1, id)) ==> before.contains(d1)
        && exists|cells: Seq<(int, int, int)>, dirs: Seq<Direction>|
        is_trace(g1, cells, dirs, cells[0], s1, id) && (cells[0] != s1 || s1 == d1)
            && after == with_trace(g1, cells, dirs, id)
            && (forall|i: int| 1 <= i < cells.len() - 1 ==> g1.cells[#[trigger] cells[i]] == GridCell::Free)
            && (forall|i: int| 0 <= i < cells.len() ==> in_search_box(search_lo(driver, sink), search_hi(driver, sink, before.size), #[trigger] cells[i]))
    &&& r is Ok ==> before.contains(d1)
    &&& before.contains(d1) && before.contains(s1) ==> (r is Ok <==> !g1.blocked_for(s1, id)
        && (sink_connected(g1, s1, d1, id)
            || route_findable(g1, search_lo(driver, sink), search_hi(driver, sink, before.size), id, s1, spec_mirror(sink_direction), d1)))
    &&& r is Err && before.contains(d1) && before.contains(s1) ==> r == Err::<(), RoutingError>(RoutingError::Unroutable)
        && after == g1
}

impl DetailRouter {
    /// Whether following the stored directions of net `id` from `p` reaches `t` within
    /// `fuel` steps, passing only over cells of the net.
    fn follows_to(&self, p: GridCellPosition, t: GridCellPosition, id: RouteId, fuel: usize) -> (r: bool)
        requires
            self.wf(),
        ensures
            r == chain_reaches(self@, p.key(), t.key(), id, fuel as nat),
    {
        proof {
            self.lemma_view_wf();
        }
        let mut cur = p;
        let mut k = fuel;
        while cur != t
            invariant
                self.wf(),
                chain_reaches(self@, p.key(), t.key(), id, fuel as nat) == chain_reaches(self@, cur.key(), t.key(), id, k as nat),
            decreases k,
        {
            if k == 0 {
                return false;
            }
            let cell = match self.get_cell(cur) {
                Ok(c) => *c,
                Err(_) => return false,
            };
            match cell {
                GridCell::Occupied(d, o) => {
                    if o != id {
                        return false;
                    }
                    proof {
                        assert(cur.key() != t.key());
                        assert(self@.contains(cur.key()));
                    }
                    cur = cur.offset(d);
                    k = k - 1;
                },
                _ => {
                    proof {
                        assert(cur.key() != t.key());
                    }
                    return false;
                },
            }
        }
        true
    }

    /// Route net `id` from the sink pin at `sink` (whose wire leaves in `sink_direction`) to
    /// the driver pin at `driver` (whose wire enters in `driver_direction`), or to any cell
    /// the net already holds.
    ///
    /// The cell in front of the driver is first marked as the net's, pointing at the driver.
    /// A weighted search then runs from the cell in front of the sink, confined to the box
    /// spanning both pins widened by two cells; free cells cost 100, cells of the net 25, and
    /// a change of layer 1000 more. Once it reaches a cell of the net other than its own
    /// starting cell (which counts only when it is the cell in front of the driver), the
    /// backtrack marks a walk from there to the cell in front of the sink, each cell pointing
    /// back towards the net: at each step the neighbour with the lowest search score. A stale
    /// mark of the net in front of the sink is thus routed over again rather than trusted.
    /// When the cell in front of the sink is closed to the net, nothing can reach it, and the
    /// route is reported unroutable before any search; when it already holds the net and its
    /// chain of directions leads to the cell in front of the driver, there is nothing to do.
    #[verifier::rlimit(30)]
    pub fn route(&mut self, driver: GridCellPosition, driver_direction: Direction, sink: GridCellPosition, sink_direction: Direction, id: RouteId) -> (r: Result<(), RoutingError>)
        requires
            old(self).wf(),
            i32::MIN + 3 <= driver.x <= i32::MAX - 3,
            i32::MIN + 3 <= driver.y <= i32::MAX - 3,
            i32::MIN + 3 <= driver.z <= i32::MAX - 3,
            i32::MIN + 3 <= sink.x <= i32::MAX - 3,
            i32::MIN + 3 <= sink.y <= i32::MAX - 3,
            i32::MIN + 3 <= sink.z <= i32::MAX - 3,
        ensures
            final(self).wf(),
            final(self)@.size == old(self)@.size,
            route_outcome(old(self)@, final(self)@, driver, driver_direction, sink, sink_direction, id, r),
    {
        let ghost size = self@.size;
        let n = self.score_grid.len();
        let mut i: usize = 0;
        while i < n
            invariant
                self.wf(),
                self@ == old(self)@,
                n == self.score_grid@.len(),
                i <= n,
                forall|j: int| 0 <= j < i ==> self.score_grid@[j] == u64::MAX,
            decreases n - i,
        {
            self.score_grid.set(i, u64::MAX);
            i = i + 1;
        }
        let lo_x = if driver.x < sink.x { driver.x } else { sink.x };
        let lo_y = if driver.y < sink.y { driver.y } else { sink.y };
        let lo_z = if driver.z < sink.z { driver.z } else { sink.z };
        let hi_x = if driver.x > sink.x { driver.x } else { sink.x };
        let hi_y = if driver.y > sink.y { driver.y } else { sink.y };
        let hi_z = if driver.z > sink.z { driver.z } else { sink.z };
        self.current_bounds_min = GridCellPosition::new(
            if lo_x - 2 > 0 { lo_x - 2 } else { 0 },
            if lo_y - 2 > 0 { lo_y - 2 } else { 0 },
            if lo_z - 2 > 0 { lo_z - 2 } else { 0 },
        );
        self.current_bounds_max = GridCellPosition::new(
            if hi_x + 2 < self.size_x { hi_x + 2 } else { self.size_x },
            if hi_y + 2 < self.size_y { hi_y + 2 } else { self.size_y },
            if hi_z + 2 < self.size_z { hi_z + 2 } else { self.size_z },
        );
        let driver1 = driver.offset(driver_direction.mirror());
        let sink1 = sink.offset(sink_direction);
        let didx = self.pos_to_idx(driver1)?;
        proof {
            lemma_detail_view_update(size, self.grid@, driver1.key());
        }
        let ghost g_before = self.grid@;
        self.grid.set(didx, GridCell::Occupied(driver_direction, id));
        let ghost g1 = self@;
        proof {
            assert(self.grid@ == g_before.update(didx as int, GridCell::Occupied(driver_direction, id)));
            assert(g1 == detail_view(size, g_before.update(grid_index(size, driver1.key()), GridCell::Occupied(driver_direction, id))));
            self.lemma_view_wf();
        }
        // A sink whose front cell the net may not enter cannot be reached.
        if self.pos_to_idx(sink1).is_ok() && self.is_blocked(sink1, id) {
            return Err(RoutingError::Unroutable);
        }
        // A sink whose front cell already lies on a chain of the net leading to the driver
        // needs nothing more.
        if self.pos_to_idx(sink1).is_ok() {
            let owned = match self.get_cell(sink1) {
                Ok(GridCell::Occupied(_, o)) => *o == id,
                _ => false,
            };
            if owned && self.follows_to(sink1, driver1, id, self.cell_count()) {
                return Ok(());
            }
        }
        proof {
            self.lemma_view_wf();
        }
        let ghost lo = search_lo(driver, sink);
        let ghost hi = search_hi(driver, sink, size);
        let ghost back = spec_mirror(sink_direction);
        let ghost s1k = sink1.key();
        let ghost d1k = driver1.key();
        let mut routing_queue: Vec<QueueItem> = Vec::new();
        routing_queue.push(QueueItem { cost: 0, pos: sink1, illegal_direction: sink_direction.mirror() });
        let ghost mut level: int = 0;
        let ghost mut seen: Set<int> = Set::empty();
        let ghost mut ill: Map<(int, int, int), Direction> = Map::empty();
        proof {
            assert forall|j: int| #[trigger] seen.contains(j) <==> 0 <= j < n && self.score_grid@[j] != u64::MAX by {}
            lemma_search_start(g1, self.score_grid@, routing_queue@, s1k, id, lo, hi, back);
            assert forall|p: (int, int, int)| in_box(size, p) && #[trigger] self.score_grid@[grid_index(size, p)] != u64::MAX
                implies self.score_grid@[grid_index(size, p)] <= level by {
                lemma_grid_index(size, p);
            }
        }
        while routing_queue.len() > 0
            invariant
                self.wf(),
                self@ == g1,
                g1.wf(),
                g1.size == size,
                size.0 * size.1 * size.2 <= u32::MAX,
                0 <= size.0 && 0 <= size.1 && 0 <= size.2,
                g1 == (DetailRouterView { cells: old(self)@.cells.insert(driver1.key(), GridCell::Occupied(driver_direction, id)), ..old(self)@ }),
                driver1.key() == step(driver.key(), spec_mirror(driver_direction)),
                sink1.key() == step(sink.key(), sink_direction),
                old(self)@.contains(driver1.key()),
                s1k == sink1.key(),
                d1k == driver1.key(),
                back == spec_mirror(sink_direction),
                lo == search_lo(driver, sink),
                hi == search_hi(driver, sink, old(self)@.size),
                self.current_bounds_min.key() == lo,
                self.current_bounds_max.key() == hi,
                detail_search_inv(size, self.score_grid@, routing_queue@, s1k, level, seen),
                !g1.contains(s1k) ==> routing_queue@.len() == 1 && routing_queue@[0].pos == sink1,
                !ill.dom().contains(s1k) ==> routing_queue@.len() == 1 && routing_queue@[0].pos == sink1
                    && routing_queue@[0].illegal_direction == back,
                ill_dom(size, self.score_grid@, ill),
                ill_ok(g1, self.score_grid@, ill, s1k, id, lo, hi, back),
                search_closed(g1, ill, routing_queue@, id, lo, hi, None),
                g1.contains(s1k) ==> !g1.blocked_for(s1k, id),
                !(g1.contains(s1k) && sink_connected(g1, s1k, d1k, id)),
                forall|p: (int, int, int)| #[trigger] ill.dom().contains(p) ==> !route_target(g1, p, id, s1k, d1k),
                forall|i: int| 0 <= i < routing_queue@.len() ==> queue_item_ok(g1, self.score_grid@, #[trigger] routing_queue@[i], s1k, id, lo, hi, back),
            decreases (size.0 * size.1 * size.2 - seen.len()) * 7 + routing_queue@.len(),
        {
            proof {
                lemma_seen_bounded3(seen, size.0 * size.1 * size.2);
            }
            let ghost q0 = routing_queue@;
            let ghost s0 = self.score_grid@;
            let item = crate::detail_routing::pop_best(&mut routing_queue);
            let idx = match self.pos_to_idx(item.pos) {
                Ok(i) => i,
                Err(e) => {
                    proof {
                        let k = choose|k: int| 0 <= k < q0.len() && q0[k] == item;
                        assert(in_box(size, q0[k].pos.key()) || q0[k].pos.key() == s1k);
                        assert(item.pos == sink1);
                    }
                    return Err(e);
                },
            };
            proof {
                let k = choose|k: int| 0 <= k < q0.len() && q0[k] == item;
                assert(level <= q0[k].cost <= level + max_step_cost());
                assert(queue_item_ok(g1, s0, q0[k], s1k, id, lo, hi, back));
                lemma_grid_index(size, item.pos.key());
                if !g1.contains(s1k) {
                    assert(q0[0] == item);
                }
                if !ill.dom().contains(s1k) {
                    assert(q0[0] == item);
                }
            }
            if item.cost >= self.score_grid[idx] {
                proof {
                    assert forall|i: int| 0 <= i < routing_queue@.len() implies level <= (#[trigger] routing_queue@[i]).cost <= level + max_step_cost()
                        && (in_box(size, routing_queue@[i].pos.key()) || (routing_queue@[i].pos.key() == s1k && routing_queue@[i].cost == 0)) by {
                        assert(q0.contains(routing_queue@[i]));
                        let k = choose|k: int| 0 <= k < q0.len() && q0[k] == routing_queue@[i];
                    }
                    assert forall|i: int| 0 <= i < routing_queue@.len() implies queue_item_ok(g1, self.score_grid@, #[trigger] routing_queue@[i], s1k, id, lo, hi, back) by {
                        assert(q0.contains(routing_queue@[i]));
                        let k = choose|k: int| 0 <= k < q0.len() && q0[k] == routing_queue@[i];
                    }
                    if seen.len() == 0 {
                        assert forall|i: int| 0 <= i < routing_queue@.len() implies (#[trigger] routing_queue@[i]).cost == 0 by {
                            assert(q0.contains(routing_queue@[i]));
                            let k = choose|k: int| 0 <= k < q0.len() && q0[k] == routing_queue@[i];
                        }
                    }
                    if !g1.contains(s1k) {
                        assert(false);
                    }
                    assert(ill.dom().contains(item.pos.key())) by {
                        reveal(ill_dom);
                    }
                    assert(ill.dom().contains(s1k));
                    lemma_closed_after_pop(g1, ill, ill, q0, routing_queue@, item, id, lo, hi);
                }
                continue;
            }
            proof {
                assert(s0[idx as int] == u64::MAX);
            }
            self.score_grid.set(idx, item.cost);
            let ghost s1 = self.score_grid@;
            let ghost old_seen = seen;
            let ghost old_level = level;
            let ghost old_ill = ill;
            proof {
                seen = seen.insert(idx as int);
                level = item.cost as int;
                assert(!old_seen.contains(idx as int));
                lemma_seen_bounded3(seen, size.0 * size.1 * size.2);
                if old_seen.len() == 0 {
                    assert(item.cost == 0);
                }
                assert(level <= max_step_cost() * (seen.len() - 1));
                assert(level + max_step_cost() <= max_step_cost() * seen.len());
                assert(max_step_cost() * seen.len() <= max_step_cost() * (size.0 * size.1 * size.2)) by (nonlinear_arith)
                    requires seen.len() <= size.0 * size.1 * size.2;
                assert(!old_ill.dom().contains(item.pos.key())) by {
                    reveal(ill_dom);
                }
                lemma_ill_after_score(g1, s0, s1, old_ill, item, s1k, id, lo, hi, back);
                ill = old_ill.insert(item.pos.key(), item.illegal_direction);
                lemma_closed_after_pop(g1, old_ill, ill, q0, routing_queue@, item, id, lo, hi);
                assert(ill.dom().contains(s1k));
            }
            let item_grid = self.grid[idx];
            let is_target = match item_grid {
                GridCell::Occupied(_, occupied_id) => occupied_id == id && (item.pos != sink1 || sink1 == driver1),
                _ => false,
            };
            proof {
                assert(g1.cells[item.pos.key()] == item_grid);
                assert(is_target == route_target(g1, item.pos.key(), id, s1k, d1k));
            }
            if is_target {
                let r = self.do_backtrack(sink1, item.pos, item.illegal_direction, id);
                proof {
                    assert(ill.dom().contains(s1k) && in_box(size, s1k)) by {
                        reveal(ill_dom);
                    }
                    assert(lo == search_lo(driver, sink));
                    assert(hi == search_hi(driver, sink, old(self)@.size));
                    assert(old(self)@.contains(s1k));
                    assert(item.pos.key() == s1k ==> item.pos == sink1);
                    assert((!g1.blocked_for(s1k, id) || item.pos.key() == s1k) ==> r is Ok);
                    assert(route_target(g1, item.pos.key(), id, s1k, d1k));
                    assert forall|p: (int, int, int)| #[trigger] ill.dom().contains(p) && p != item.pos.key()
                        implies !route_target(g1, p, id, s1k, d1k) by {
                        assert(old_ill.dom().contains(p));
                    }
                    lemma_backtrack_outcome(old(self)@, g1, self@, driver, driver_direction, sink, sink_direction, id, r,
                        ill, s1, item.pos.key());
                }
                return r;
            }
            let nbs = self.neighbors(item.pos, item.illegal_direction, id);
            let ghost q1 = routing_queue@;
            proof {
                lemma_queue_ok_rescore(g1, s0, s1, q0, q1, item.pos.key(), item.cost, s1k, id, lo, hi, back);
                assert(ill[item.pos.key()] == item.illegal_direction);
            }
            let mut k: usize = 0;
            while k < nbs.len()
                invariant
                    self.wf(),
                    self@ == g1,
                    g1.size == size,
                    self.score_grid@ == s1,
                    self.current_bounds_min.key() == lo,
                    self.current_bounds_max.key() == hi,
                    in_box(size, item.pos.key()),
                    item.cost == level,
                    level + max_step_cost() < u64::MAX,
                    forall|i: int| 0 <= i < nbs@.len() ==> !g1.blocked_for((#[trigger] nbs@[i]).0.key(), id)
                        && nbs@[i].0.key() == step(item.pos.key(), nbs@[i].1)
                        && nbs@[i].1 != item.illegal_direction,
                    forall|d: Direction| d != item.illegal_direction && !g1.blocked_for(step(item.pos.key(), d), id)
                        ==> exists|i: int| 0 <= i < nbs@.len() && (#[trigger] nbs@[i]).1 == d,
                    item.pos.key() == s1k || search_open(g1, lo, hi, item.pos.key(), id),
                    item.pos.key() == s1k ==> item.illegal_direction == back,
                    s1[grid_index(size, item.pos.key())] == item.cost,
                    ill_dom(size, s1, ill),
                    ill.dom().contains(item.pos.key()),
                    ill[item.pos.key()] == item.illegal_direction,
                    search_closed(g1, ill, routing_queue@, id, lo, hi, Some(item.pos.key())),
                    forall|j: int| 0 <= j < k ==> search_open(g1, lo, hi, (#[trigger] nbs@[j]).0.key(), id)
                        ==> ill.dom().contains(nbs@[j].0.key()) || queue_has(routing_queue@, nbs@[j].0.key()),
                    forall|i: int| 0 <= i < routing_queue@.len() ==> queue_item_ok(g1, s1, #[trigger] routing_queue@[i], s1k, id, lo, hi, back),
                    k <= nbs@.len(),
                    nbs@.len() <= 6,
                    routing_queue@.len() >= q1.len(),
                    routing_queue@.len() - q1.len() <= k,
                    forall|i: int| 0 <= i < q1.len() ==> routing_queue@[i] == q1[i],
                    forall|i: int| q1.len() <= i < routing_queue@.len() ==> level <= (#[trigger] routing_queue@[i]).cost <= level + max_step_cost()
                        && in_box(size, routing_queue@[i].pos.key()),
                decreases nbs@.len() - k,
            {
                let (neighbor, move_direction) = nbs[k];
                let ghost q2 = routing_queue@;
                if self.is_in_bounds(neighbor) {
                    let nidx = match self.pos_to_idx(neighbor) {
                        Ok(i) => i,
                        Err(_) => 0,
                    };
                    let grid = self.grid[nidx];
                    proof {
                        assert(!g1.blocked_for(neighbor.key(), id));
                        assert(g1.cells[neighbor.key()] == grid);
                    }
                    let base: Option<u64> = match grid {
                        GridCell::Free => Some(100),
                        GridCell::Blocked => Some(10_000_000),
                        GridCell::Occupied(_, nid) => if id == nid { Some(25) } else { None },
                    };
                    if let Some(base) = base {
                        let vertical: u64 = match move_direction {
                            Direction::Up | Direction::Down => 1000,
                            _ => 0,
                        };
                        let cost = item.cost + base + vertical;
                        if cost < self.score_grid[nidx] {
                            routing_queue.push(QueueItem { cost, pos: neighbor, illegal_direction: move_direction.mirror() });
                            proof {
                                lemma_push_ok(g1, s1, item.pos.key(), item.illegal_direction, item.cost, neighbor, move_direction,
                                    cost, s1k, id, lo, hi, back);
                                assert(queue_item_ok(g1, s1, routing_queue@[routing_queue@.len() - 1], s1k, id, lo, hi, back));
                                assert forall|i: int| 0 <= i < routing_queue@.len() implies queue_item_ok(g1, s1, #[trigger] routing_queue@[i], s1k, id, lo, hi, back) by {
                                    if i < q2.len() {
                                        assert(routing_queue@[i] == q2[i]);
                                    }
                                }
                                assert(routing_queue@[routing_queue@.len() - 1].pos.key() == neighbor.key());
                            }
                        } else {
                            proof {
                                lemma_grid_index(size, neighbor.key());
                                assert(ill.dom().contains(neighbor.key())) by {
                                    reveal(ill_dom);
                                }
                            }
                        }
                    } else {
                        proof {
                            assert(false);
                        }
                    }
                }
                proof {
                    lemma_queue_extend(g1, ill, q2, routing_queue@, id, lo, hi, Some(item.pos.key()));
                    assert forall|j: int| 0 <= j < k + 1 && search_open(g1, lo, hi, (#[trigger] nbs@[j]).0.key(), id)
                        implies ill.dom().contains(nbs@[j].0.key()) || queue_has(routing_queue@, nbs@[j].0.key()) by {
                        if j < k && !ill.dom().contains(nbs@[j].0.key()) {
                            lemma_queue_has_extend(q2, routing_queue@, nbs@[j].0.key());
                        }
                        if j == k && !ill.dom().contains(nbs@[j].0.key()) {
                            assert(routing_queue@.len() == q2.len() + 1);
                            assert(routing_queue@[q2.len() as int].pos.key() == nbs@[j].0.key());
                        }
                    }
                }
                k = k + 1;
            }
            proof {
                assert forall|i: int| 0 <= i < routing_queue@.len() implies level <= (#[trigger] routing_queue@[i]).cost <= level + max_step_cost()
                    && (in_box(size, routing_queue@[i].pos.key()) || (routing_queue@[i].pos.key() == s1k && routing_queue@[i].cost == 0)) by {
                    if i < q1.len() {
                        assert(routing_queue@[i] == q1[i]);
                        assert(q0.contains(q1[i]));
                        let k = choose|k: int| 0 <= k < q0.len() && q0[k] == q1[i];
                        assert(item.cost <= q0[k].cost);
                    }
                }
                assert forall|p: (int, int, int)| in_box(size, p) && #[trigger] s1[grid_index(size, p)] != u64::MAX
                    implies s1[grid_index(size, p)] <= level by {
                    lemma_grid_index(size, p);
                    if p != item.pos.key() {
                        lemma_grid_index_injective(size, p, item.pos.key());
                    }
                }
                if !g1.contains(s1k) {
                    assert(false);
                }
                let pk = item.pos.key();
                lemma_close_item(g1, ill, routing_queue@, pk, nbs@, id, lo, hi);
                assert forall|p: (int, int, int)| #[trigger] ill.dom().contains(p) implies !route_target(g1, p, id, s1k, d1k) by {
                    if p != pk {
                        assert(old_ill.dom().contains(p));
                    }
                }
            }
        }
        proof {
            assert(routing_queue@ =~= Seq::<QueueItem>::empty());
            lemma_exhausted_outcome(old(self)@, g1, driver, driver_direction, sink, sink_direction, id, ill, self.score_grid@);
        }
        Err(RoutingError::Unroutable)
    }
}

/// What a backtrack from the target `t` the search reached gives `route` to report.
proof fn lemma_backtrack_outcome(before: DetailRouterView, g1: DetailRouterView, after: DetailRouterView, driver: GridCellPosition,
    driver_direction: Direction, sink: GridCellPosition, sink_direction: Direction, id: RouteId, r: Result<(), RoutingError>,
    ill: Map<(int, int, int), Direction>, scores: Seq<u64>, t: (int, int, int))
    requires
        ({
            let d1 = step(driver.key(), spec_mirror(driver_direction));
            let s1 = step(sink.key(), sink_direction);
            let lo = search_lo(driver, sink);
            let hi = search_hi(driver, sink, before.size);
            let back = spec_mirror(sink_direction);
            &&& before.contains(d1)
            &&& before.contains(s1)
            &&& g1 == (DetailRouterView { cells: before.cells.insert(d1, GridCell::Occupied(driver_direction, id)), ..before })
            &&& !(before.contains(s1) && sink_connected(g1, s1, d1, id))
            &&& ill.dom().contains(t)
            &&& ill_ok(g1, scores, ill, s1, id, lo, hi, back)
            &&& ill_dom(g1.size, scores, ill)
            &&& route_target(g1, t, id, s1, d1)
            &&& forall|p: (int, int, int)| #[trigger] ill.dom().contains(p) && p != t ==> !route_target(g1, p, id, s1, d1)
            &&& !g1.blocked_for(s1, id)
            &&& r is Ok
            &&& exists|cells: Seq<(int, int, int)>, dirs: Seq<Direction>|
                is_trace(g1, cells, dirs, t, s1, id) && after == with_trace(g1, cells, dirs, id)
                && forall|i: int| 0 <= i < cells.len() ==> #[trigger] scores[grid_index(g1.size, cells[i])] != u64::MAX
        }),
    ensures
        route_outcome(before, after, driver, driver_direction, sink, sink_direction, id, r),
{
    reveal(ill_ok);
    reveal(ill_dom);
    let d1 = step(driver.key(), spec_mirror(driver_direction));
    let s1 = step(sink.key(), sink_direction);
    let lo = search_lo(driver, sink);
    let hi = search_hi(driver, sink, before.size);
    let back = spec_mirror(sink_direction);
    let w = lemma_tree_walk(g1, lo, hi, id, s1, back, ill, scores, t);
    assert(route_target(g1, w.0.last(), id, s1, d1));
    assert(route_findable(g1, lo, hi, id, s1, back, d1));
    let (cells, dirs) = choose|cells: Seq<(int, int, int)>, dirs: Seq<Direction>|
        is_trace(g1, cells, dirs, t, s1, id) && after == with_trace(g1, cells, dirs, id)
        && forall|i: int| 0 <= i < cells.len() ==> #[trigger] scores[grid_index(g1.size, cells[i])] != u64::MAX;
    assert(in_search_box(lo, hi, s1));
    assert forall|i: int| 0 <= i < cells.len() implies in_search_box(lo, hi, #[trigger] cells[i]) by {
        let c = cells[i];
        if c != s1 {
            if i > 0 {
                assert(!g1.blocked_for(c, id));
            }
            assert(scores[grid_index(g1.size, c)] != u64::MAX);
            assert(ill.dom().contains(c));
        }
    }
    assert forall|i: int| 1 <= i < cells.len() - 1 implies g1.cells[#[trigger] cells[i]] == GridCell::Free by {
        let c = cells[i];
        assert(!g1.blocked_for(c, id));
        assert(scores[grid_index(g1.size, c)] != u64::MAX);
        assert(ill.dom().contains(c));
        assert(c != t);
        assert(c != s1);
        assert(!route_target(g1, c, id, s1, d1));
    }
    assert(is_trace(g1, cells, dirs, cells[0], s1, id) && (cells[0] != s1 || s1 == d1) && after == with_trace(g1, cells, dirs, id));
}

/// What a search that ran out of queue entries without reaching a target gives `route` to
/// report.
proof fn lemma_exhausted_outcome(before: DetailRouterView, g1: DetailRouterView, driver: GridCellPosition,
    driver_direction: Direction, sink: GridCellPosition, sink_direction: Direction, id: RouteId,
    ill: Map<(int, int, int), Direction>, scores: Seq<u64>)
    requires
        ({
            let d1 = step(driver.key(), spec_mirror(driver_direction));
            let s1 = step(sink.key(), sink_direction);
            let lo = search_lo(driver, sink);
            let hi = search_hi(driver, sink, before.size);
            let back = spec_mirror(sink_direction);
            &&& before.contains(d1)
            &&& g1 == (DetailRouterView { cells: before.cells.insert(d1, GridCell::Occupied(driver_direction, id)), ..before })
            &&& !(before.contains(s1) && sink_connected(g1, s1, d1, id))
            &&& ill.dom().contains(s1)
            &&& ill_ok(g1, scores, ill, s1, id, lo, hi, back)
            &&& ill_dom(g1.size, scores, ill)
            &&& search_closed(g1, ill, Seq::empty(), id, lo, hi, None)
            &&& forall|p: (int, int, int)| #[trigger] ill.dom().contains(p) ==> !route_target(g1, p, id, s1, d1)
        }),
    ensures
        route_outcome(before, g1, driver, driver_direction, sink, sink_direction, id, Err(RoutingError::Unroutable)),
{
    let d1 = step(driver.key(), spec_mirror(driver_direction));
    let s1 = step(sink.key(), sink_direction);
    let lo = search_lo(driver, sink);
    let hi = search_hi(driver, sink, before.size);
    let back = spec_mirror(sink_direction);
    reveal(ill_dom);
    assert(before.contains(s1));
    if route_findable(g1, lo, hi, id, s1, back, d1) {
        let (cells, dirs) = choose|cells: Seq<(int, int, int)>, dirs: Seq<Direction>|
            #[trigger] search_walk(g1, lo, hi, id, s1, back, cells, dirs) && route_target(g1, cells.last(), id, s1, d1);
        lemma_walk_scored(g1, lo, hi, id, s1, back, cells, dirs, ill, scores);
        assert(false);
    }
}

/// At the start of a search (nothing scored, only the entry at `s1` queued) everything is in order.
proof fn lemma_search_start(g: DetailRouterView, scores: Seq<u64>, q: Seq<QueueItem>, s1: (int, int, int), id: RouteId,
    lo: (int, int, int), hi: (int, int, int), back: Direction)
    requires
        scores.len() == g.size.0 * g.size.1 * g.size.2,
        0 <= g.size.0 && 0 <= g.size.1 && 0 <= g.size.2,
        forall|j: int| 0 <= j < scores.len() ==> scores[j] == u64::MAX,
        q.len() == 1,
        q[0].pos.key() == s1,
    ensures
        ill_dom(g.size, scores, Map::empty()),
        ill_ok(g, scores, Map::empty(), s1, id, lo, hi, back),
        search_closed(g, Map::empty(), q, id, lo, hi, None),
        queue_item_ok(g, scores, q[0], s1, id, lo, hi, back),
{
    reveal(ill_dom);
    reveal(ill_ok);
    reveal(search_closed);
    reveal(queue_item_ok);
    assert forall|p: (int, int, int)| #[trigger] Map::<(int, int, int), Direction>::empty().dom().contains(p) <==> in_box(g.size, p)
        && scores[grid_index(g.size, p)] != u64::MAX by {
        if in_box(g.size, p) {
            lemma_grid_index(g.size, p);
        }
    }
}

/// Scoring the unscored cell `p0` keeps the queue entries in order.
proof fn lemma_queue_ok_rescore(g: DetailRouterView, s0: Seq<u64>, s1s: Seq<u64>, q0: Seq<QueueItem>, q1: Seq<QueueItem>,
    p0: (int, int, int), cost: u64, s1: (int, int, int), id: RouteId, lo: (int, int, int), hi: (int, int, int), back: Direction)
    requires
        s0.len() == g.size.0 * g.size.1 * g.size.2,
        0 <= g.size.0 && 0 <= g.size.1 && 0 <= g.size.2,
        in_box(g.size, p0),
        s0[grid_index(g.size, p0)] == u64::MAX,
        s1s == s0.update(grid_index(g.size, p0), cost),
        forall|i: int| 0 <= i < q0.len() ==> queue_item_ok(g, s0, #[trigger] q0[i], s1, id, lo, hi, back),
        forall|i: int| 0 <= i < q1.len() ==> q0.contains(#[trigger] q1[i]),
    ensures
        forall|i: int| 0 <= i < q1.len() ==> queue_item_ok(g, s1s, #[trigger] q1[i], s1, id, lo, hi, back),
{
    reveal(queue_item_ok);
    lemma_grid_index(g.size, p0);
    assert forall|i: int| 0 <= i < q1.len() implies queue_item_ok(g, s1s, #[trigger] q1[i], s1, id, lo, hi, back) by {
        let k = choose|k: int| 0 <= k < q0.len() && q0[k] == q1[i];
        assert(queue_item_ok(g, s0, q0[k], s1, id, lo, hi, back));
        if q1[i].pos.key() != s1 {
            let m = step(q1[i].pos.key(), q1[i].illegal_direction);
            lemma_grid_index(g.size, m);
            assert(s1s[grid_index(g.size, m)] == s0[grid_index(g.size, m)]);
        }
    }
}

/// The entry queued for the neighbour `nb` (reached in direction `d`) of the scored cell
/// `p` is in order.
proof fn lemma_push_ok(g: DetailRouterView, scores: Seq<u64>, p: (int, int, int), p_illegal: Direction, p_cost: u64,
    nb: GridCellPosition, d: Direction, cost: u64, s1: (int, int, int), id: RouteId, lo: (int, int, int), hi: (int, int, int), back: Direction)
    requires
        in_box(g.size, p),
        scores[grid_index(g.size, p)] == p_cost,
        p_cost < cost,
        nb.key() == step(p, d),
        search_open(g, lo, hi, nb.key(), id),
        p == s1 || search_open(g, lo, hi, p, id),
        d != p_illegal,
        p == s1 ==> p_illegal == back,
    ensures
        queue_item_ok(g, scores, QueueItem { cost, pos: nb, illegal_direction: spec_mirror(d) }, s1, id, lo, hi, back),
{
    reveal(queue_item_ok);
    lemma_step_mirror(p, d);
    lemma_mirror_involution(d);
}

/// Once every neighbour the search may enter from `p` is scored or queued, the search is
/// closed at `p` as well.
proof fn lemma_close_item(g: DetailRouterView, ill: Map<(int, int, int), Direction>, q: Seq<QueueItem>, p: (int, int, int),
    nbs: Seq<(GridCellPosition, Direction)>, id: RouteId, lo: (int, int, int), hi: (int, int, int))
    requires
        search_closed(g, ill, q, id, lo, hi, Some(p)),
        ill.dom().contains(p),
        forall|j: int| 0 <= j < nbs.len() ==> (#[trigger] nbs[j]).0.key() == step(p, nbs[j].1),
        forall|j: int| 0 <= j < nbs.len() && search_open(g, lo, hi, (#[trigger] nbs[j]).0.key(), id)
            ==> ill.dom().contains(nbs[j].0.key()) || queue_has(q, nbs[j].0.key()),
        forall|d: Direction| d != ill[p] && !g.blocked_for(step(p, d), id)
            ==> exists|j: int| 0 <= j < nbs.len() && (#[trigger] nbs[j]).1 == d,
    ensures
        search_closed(g, ill, q, id, lo, hi, None),
{
    reveal(search_closed);
    assert forall|c: (int, int, int), d: Direction| #![trigger ill.dom().contains(c), step(c, d)]
        ill.dom().contains(c) && None::<(int, int, int)> != Some(c) && d != ill[c] && search_open(g, lo, hi, step(c, d), id)
        implies ill.dom().contains(step(c, d)) || queue_has(q, step(c, d)) by {
        if c == p {
            let j = choose|j: int| 0 <= j < nbs.len() && (#[trigger] nbs[j]).1 == d;
            assert(nbs[j].0.key() == step(p, d));
        } else {
            assert(Some(p) != Some(c));
        }
    }
}

/// Appending entries to the queue keeps every cell waiting in it.
proof fn lemma_queue_has_extend(q: Seq<QueueItem>, q2: Seq<QueueItem>, m: (int, int, int))
    requires
        queue_has(q, m),
        q.len() <= q2.len(),
        forall|i: int| 0 <= i < q.len() ==> q2[i] == q[i],
    ensures
        queue_has(q2, m),
{
    let i = choose|i: int| 0 <= i < q.len() && (#[trigger] q[i]).pos.key() == m;
    assert(q2[i] == q[i]);
}

/// Appending entries to the queue keeps the search closed.
proof fn lemma_queue_extend(g: DetailRouterView, ill: Map<(int, int, int), Direction>, q: Seq<QueueItem>, q2: Seq<QueueItem>,
    id: RouteId, lo: (int, int, int), hi: (int, int, int), skip: Option<(int, int, int)>)
    requires
        search_closed(g, ill, q, id, lo, hi, skip),
        q.len() <= q2.len(),
        forall|i: int| 0 <= i < q.len() ==> q2[i] == q[i],
    ensures
        search_closed(g, ill, q2, id, lo, hi, skip),
{
    reveal(search_closed);
    assert forall|p: (int, int, int), d: Direction| #![trigger ill.dom().contains(p), step(p, d)]
        ill.dom().contains(p) && skip != Some(p) && d != ill[p] && search_open(g, lo, hi, step(p, d), id)
        implies ill.dom().contains(step(p, d)) || queue_has(q2, step(p, d)) by {
        if !ill.dom().contains(step(p, d)) {
            lemma_queue_has_extend(q, q2, step(p, d));
        }
    }
}

/// Taking entry `r` off the queue (and scoring its cell, giving `ill2`) keeps every step from
/// a cell scored before closed.
proof fn lemma_closed_after_pop(g: DetailRouterView, ill: Map<(int, int, int), Direction>, ill2: Map<(int, int, int), Direction>,
    q_old: Seq<QueueItem>, q_new: Seq<QueueItem>, r: QueueItem, id: RouteId, lo: (int, int, int), hi: (int, int, int))
    requires
        search_closed(g, ill, q_old, id, lo, hi, None),
        forall|i: int| 0 <= i < q_old.len() && q_old[i] != r ==> q_new.contains(#[trigger] q_old[i]),
        ill2.dom().contains(r.pos.key()),
        forall|p: (int, int, int)| #[trigger] ill.dom().contains(p) ==> ill2.dom().contains(p) && ill2[p] == ill[p],
        forall|p: (int, int, int)| #[trigger] ill2.dom().contains(p) ==> ill.dom().contains(p) || p == r.pos.key(),
    ensures
        search_closed(g, ill2, q_new, id, lo, hi, if ill.dom().contains(r.pos.key()) { None } else { Some(r.pos.key()) }),
{
    reveal(search_closed);
    let skip = if ill.dom().contains(r.pos.key()) { None } else { Some(r.pos.key()) };
    assert forall|p: (int, int, int), d: Direction| #![trigger ill2.dom().contains(p), step(p, d)]
        ill2.dom().contains(p) && skip != Some(p) && d != ill2[p] && search_open(g, lo, hi, step(p, d), id)
        implies ill2.dom().contains(step(p, d)) || queue_has(q_new, step(p, d)) by {
        assert(ill.dom().contains(p));
        assert(ill.dom().contains(p) && step(p, d) == step(p, d));
        if !ill.dom().contains(step(p, d)) && step(p, d) != r.pos.key() {
            assert(queue_has(q_old, step(p, d)));
            let i = choose|i: int| 0 <= i < q_old.len() && (#[trigger] q_old[i]).pos.key() == step(p, d);
            assert(q_old[i] != r);
            assert(q_new.contains(q_old[i]));
            let j = choose|j: int| 0 <= j < q_new.len() && q_new[j] == q_old[i];
            assert(q_new[j].pos.key() == step(p, d));
        }
    }
}

/// Routing net `id` with success and then ripping it up leaves the grid as ripping it up alone
/// would, except for the cell in front of the driver, which ends up free.
#[verifier::rlimit(40)]
pub proof fn lemma_rip_up_after_route(before: DetailRouterView, after: DetailRouterView, driver: GridCellPosition,
    driver_direction: Direction, sink: GridCellPosition, sink_direction: Direction, id: RouteId, r: Result<(), RoutingError>)
    requires
        before.wf(),
        route_outcome(before, after, driver, driver_direction, sink, sink_direction, id, r),
        r is Ok,
    ensures
        forall|p: (int, int, int)| before.contains(p) ==> #[trigger] after.without_route(id).cells[p] == (
            if p == step(driver.key(), spec_mirror(driver_direction)) { GridCell::Free } else { before.without_route(id).cells[p] }),
{
    let d1 = step(driver.key(), spec_mirror(driver_direction));
    let s1 = step(sink.key(), sink_direction);
    let g1 = DetailRouterView { cells: before.cells.insert(d1, GridCell::Occupied(driver_direction, id)), ..before };
    if before.contains(s1) && sink_connected(g1, s1, d1, id) {
        assert forall|p: (int, int, int)| before.contains(p) implies #[trigger] after.without_route(id).cells[p] == (
            if p == d1 { GridCell::Free } else { before.without_route(id).cells[p] }) by {
            assert(before.cells.contains_key(p));
        }
    } else {
        let (cells, dirs) = choose|cells: Seq<(int, int, int)>, dirs: Seq<Direction>|
            is_trace(g1, cells, dirs, cells[0], s1, id) && (cells[0] != s1 || s1 == d1) && after == with_trace(g1, cells, dirs, id);
        assert(g1.wf()) by {
            assert forall|p: (int, int, int)| #[trigger] g1.cells.contains_key(p) <==> g1.contains(p) by {
                assert(before.cells.contains_key(p) <==> before.contains(p));
            }
        }
        assert forall|i: int| 1 <= i < cells.len() implies g1.contains(#[trigger] cells[i]) by {
            assert(!g1.blocked_for(cells[i], id));
        }
        lemma_with_trace_basics(g1, cells, dirs, id);
        assert forall|p: (int, int, int)| before.contains(p) implies #[trigger] after.without_route(id).cells[p] == (
            if p == d1 { GridCell::Free } else { before.without_route(id).cells[p] }) by {
            assert(after.cells.contains_key(p));
            assert(before.cells.contains_key(p));
            if exists|i: int| 1 <= i < cells.len() && cells[i] == p {
                let i = choose|i: int| 1 <= i < cells.len() && cells[i] == p;
                assert forall|j: int| i < j < cells.len() implies cells[j] != cells[i] by {}
                assert(after.cells[cells[i]] == GridCell::Occupied(dirs[i], id));
                assert(!g1.blocked_for(cells[i], id));
            } else {
                assert(after.cells[p] == g1.cells[p]);
            }
        }
    }
}

/// Routing net `id` never takes a blocked cell or a cell of another net, except the cell in
/// front of the driver, whatever the outcome.
#[verifier::rlimit(40)]
pub proof fn lemma_route_keeps_blocked_cells(before: DetailRouterView, after: DetailRouterView, driver: GridCellPosition,
    driver_direction: Direction, sink: GridCellPosition, sink_direction: Direction, id: RouteId, r: Result<(), RoutingError>)
    requires
        before.wf(),
        route_outcome(before, after, driver, driver_direction, sink, sink_direction, id, r),
    ensures
        forall|p: (int, int, int)| before.contains(p) && before.blocked_for(p, id) && p != step(driver.key(), spec_mirror(driver_direction))
            ==> #[trigger] after.cells[p] == before.cells[p],
{
    let d1 = step(driver.key(), spec_mirror(driver_direction));
    let s1 = step(sink.key(), sink_direction);
    let g1 = DetailRouterView { cells: before.cells.insert(d1, GridCell::Occupied(driver_direction, id)), ..before };
    if r is Ok && !(before.contains(s1) && sink_connected(g1, s1, d1, id)) {
        let (cells, dirs) = choose|cells: Seq<(int, int, int)>, dirs: Seq<Direction>|
            is_trace(g1, cells, dirs, cells[0], s1, id) && (cells[0] != s1 || s1 == d1) && after == with_trace(g1, cells, dirs, id);
        assert(g1.wf()) by {
            assert forall|p: (int, int, int)| #[trigger] g1.cells.contains_key(p) <==> g1.contains(p) by {
                assert(before.cells.contains_key(p) <==> before.contains(p));
            }
        }
        assert forall|i: int| 1 <= i < cells.len() implies g1.contains(#[trigger] cells[i]) by {
            assert(!g1.blocked_for(cells[i], id));
        }
        lemma_with_trace_basics(g1, cells, dirs, id);
        assert forall|p: (int, int, int)| before.contains(p) && before.blocked_for(p, id) && p != d1
            implies #[trigger] after.cells[p] == before.cells[p] by {
            assert forall|i: int| 1 <= i < cells.len() implies cells[i] != p by {
                assert(!g1.blocked_for(cells[i], id));
            }
        }
    }
}

/// A chain only looks at cells of the net other than its end, so a grid that agrees on those
/// has the same chain.
proof fn lemma_chain_transfer(g: DetailRouterView, h: DetailRouterView, p: (int, int, int), t: (int, int, int), id: RouteId, fuel: nat)
    requires
        chain_reaches(g, p, t, id, fuel),
        h.size == g.size,
        forall|q: (int, int, int)| q != t && g.contains(q) && cell_owner(g.cells[q]) == Some(id) ==> #[trigger] h.cells[q] == g.cells[q],
    ensures
        chain_reaches(h, p, t, id, fuel),
    decreases fuel,
{
    if p != t && fuel > 0 {
        match g.cells[p] {
            GridCell::Occupied(d, o) => {
                assert(h.cells[p] == g.cells[p]);
                lemma_chain_transfer(g, h, step(p, d), t, id, (fuel - 1) as nat);
            },
            _ => {},
        }
    }
}

/// Along a walk whose cells (after the first) point back at the cell before them, the chain
/// from the `i`-th cell reaches `t` whenever the chain from the first one does.
proof fn lemma_walk_chain(g: DetailRouterView, cells: Seq<(int, int, int)>, dirs: Seq<Direction>, t: (int, int, int),
    id: RouteId, fuel: nat, i: int)
    requires
        0 <= i < cells.len(),
        dirs.len() == cells.len(),
        chain_reaches(g, cells[0], t, id, fuel),
        forall|k: int| 1 <= k < cells.len() ==> g.contains(#[trigger] cells[k]),
        forall|k: int| 1 <= k < cells.len() ==> g.cells[#[trigger] cells[k]] == GridCell::Occupied(dirs[k], id),
        forall|k: int| 1 <= k < cells.len() ==> step(#[trigger] cells[k], dirs[k]) == cells[k - 1],
    ensures
        chain_reaches(g, cells[i], t, id, (fuel + i) as nat),
    decreases i,
{
    if i > 0 {
        lemma_walk_chain(g, cells, dirs, t, id, fuel, i - 1);
        assert(g.cells[cells[i]] == GridCell::Occupied(dirs[i], id));
        assert(step(cells[i], dirs[i]) == cells[i - 1]);
    }
}

/// More steps never stop a chain from reaching its end.
proof fn lemma_chain_more_fuel(g: DetailRouterView, p: (int, int, int), t: (int, int, int), id: RouteId, f: nat, f2: nat)
    requires
        chain_reaches(g, p, t, id, f),
        f <= f2,
    ensures
        chain_reaches(g, p, t, id, f2),
    decreases f,
{
    if p != t {
        match g.cells[p] {
            GridCell::Occupied(d, o) => {
                lemma_chain_more_fuel(g, step(p, d), t, id, (f - 1) as nat, (f2 - 1) as nat);
            },
            _ => {},
        }
    }
}

/// A chain that reaches `t` never passes a cell `q` whose own chain does not, so a grid that
/// agrees on the net's other cells, `q` aside, has the same chain.
proof fn lemma_chain_transfer_avoiding(g: DetailRouterView, h: DetailRouterView, p: (int, int, int), t: (int, int, int),
    id: RouteId, fuel: nat, q: (int, int, int))
    requires
        chain_reaches(g, p, t, id, fuel),
        !chain_reaches(g, q, t, id, fuel),
        h.size == g.size,
        forall|x: (int, int, int)| x != t && x != q && g.contains(x) && cell_owner(g.cells[x]) == Some(id) ==> #[trigger] h.cells[x] == g.cells[x],
    ensures
        chain_reaches(h, p, t, id, fuel),
    decreases fuel,
{
    if p != t && fuel > 0 {
        assert(p != q);
        match g.cells[p] {
            GridCell::Occupied(d, o) => {
                assert(h.cells[p] == g.cells[p]);
                if chain_reaches(g, q, t, id, (fuel - 1) as nat) {
                    lemma_chain_more_fuel(g, q, t, id, (fuel - 1) as nat, fuel);
                }
                lemma_chain_transfer_avoiding(g, h, step(p, d), t, id, (fuel - 1) as nat, q);
            },
            _ => {},
        }
    }
}

/// After a successful route of net `id`, following the stored directions from the cell in
/// front of the sink reaches the cell in front of the driver, provided every other cell the net
/// held before reached it, within as many steps as the grid has cells.
#[verifier::rlimit(40)]
pub proof fn lemma_route_connects(before: DetailRouterView, after: DetailRouterView, driver: GridCellPosition,
    driver_direction: Direction, sink: GridCellPosition, sink_direction: Direction, id: RouteId, r: Result<(), RoutingError>)
    requires
        before.wf(),
        route_outcome(before, after, driver, driver_direction, sink, sink_direction, id, r),
        r is Ok,
        ({
            let d1 = step(driver.key(), spec_mirror(driver_direction));
            let s1 = step(sink.key(), sink_direction);
            forall|p: (int, int, int)| before.owned_by(p, id) && p != s1 && p != d1
                ==> #[trigger] chain_reaches(before, p, d1, id, volume_of(before.size))
        }),
    ensures
        exists|f: nat| chain_reaches(after, step(sink.key(), sink_direction), step(driver.key(), spec_mirror(driver_direction)), id, f),
{
    let d1 = step(driver.key(), spec_mirror(driver_direction));
    let s1 = step(sink.key(), sink_direction);
    let vol = volume_of(before.size);
    let g1 = DetailRouterView { cells: before.cells.insert(d1, GridCell::Occupied(driver_direction, id)), ..before };
    if before.contains(s1) && sink_connected(g1, s1, d1, id) {
        assert(chain_reaches(after, s1, d1, id, vol));
    } else {
        let (cells, dirs) = choose|cells: Seq<(int, int, int)>, dirs: Seq<Direction>|
            is_trace(g1, cells, dirs, cells[0], s1, id) && (cells[0] != s1 || s1 == d1)
                && after == with_trace(g1, cells, dirs, id)
                && (forall|i: int| 1 <= i < cells.len() - 1 ==> g1.cells[#[trigger] cells[i]] == GridCell::Free)
                && (forall|i: int| 0 <= i < cells.len() ==> in_search_box(search_lo(driver, sink), search_hi(driver, sink, before.size), #[trigger] cells[i]));
        assert(g1.wf()) by {
            assert forall|p: (int, int, int)| #[trigger] g1.cells.contains_key(p) <==> g1.contains(p) by {
                assert(before.cells.contains_key(p) <==> before.contains(p));
            }
        }
        assert forall|i: int| 1 <= i < cells.len() implies g1.contains(#[trigger] cells[i]) by {
            assert(!g1.blocked_for(cells[i], id));
        }
        lemma_with_trace_basics(g1, cells, dirs, id);
        let t = cells[0];
        let n = cells.len();
        // The chain from `s1` does not reach `d1` in `g1`.
        assert(!chain_reaches(g1, s1, d1, id, vol)) by {
            if chain_reaches(g1, s1, d1, id, vol) && s1 != d1 && vol > 0 {
                assert(g1.contains(s1));
                assert(g1.owned_by(s1, id));
            }
        }
        // The first cell of the walk reaches the driver's front cell as it did before.
        if t != d1 {
            assert(before.owned_by(t, id));
            assert(chain_reaches(before, t, d1, id, vol));
            assert forall|q: (int, int, int)| q != d1 && before.contains(q) && cell_owner(before.cells[q]) == Some(id)
                implies #[trigger] g1.cells[q] == before.cells[q] by {}
            lemma_chain_transfer(before, g1, t, d1, id, vol);
            assert forall|q: (int, int, int)| q != d1 && q != s1 && g1.contains(q) && cell_owner(g1.cells[q]) == Some(id)
                implies #[trigger] after.cells[q] == g1.cells[q] by {
                assert forall|i: int| 1 <= i < n implies cells[i] != q by {
                    if i < n - 1 {
                        assert(g1.cells[cells[i]] == GridCell::Free);
                    }
                }
            }
            lemma_chain_transfer_avoiding(g1, after, t, d1, id, vol, s1);
        }
        assert(chain_reaches(after, t, d1, id, vol));
        assert forall|k: int| 1 <= k < n implies after.cells[#[trigger] cells[k]] == GridCell::Occupied(dirs[k], id) by {
            assert forall|j: int| k < j < n implies cells[j] != cells[k] by {}
        }
        lemma_walk_chain(after, cells, dirs, d1, id, vol, n - 1);
        assert(cells[n - 1] == s1);
    }
}

/// Whatever its outcome, routing net `id` changes only cells inside the search box, gives every
/// changed cell to the net, and changes no cell but the driver's front cell that was not free,
/// save the sink's front cell when the net already held it.
#[verifier::rlimit(40)]
pub proof fn lemma_route_changes(before: DetailRouterView, after: DetailRouterView, driver: GridCellPosition,
    driver_direction: Direction, sink: GridCellPosition, sink_direction: Direction, id: RouteId, r: Result<(), RoutingError>)
    requires
        before.wf(),
        route_outcome(before, after, driver, driver_direction, sink, sink_direction, id, r),
    ensures
        forall|p: (int, int, int)| before.contains(p) && #[trigger] after.cells[p] != before.cells[p] ==> {
            let d1 = step(driver.key(), spec_mirror(driver_direction));
            let s1 = step(sink.key(), sink_direction);
            &&& in_search_box(search_lo(driver, sink), search_hi(driver, sink, before.size), p)
            &&& cell_owner(after.cells[p]) == Some(id)
            &&& (p == d1 || before.cells[p] == GridCell::Free || (p == s1 && before.owned_by(s1, id)))
        },
{
    let d1 = step(driver.key(), spec_mirror(driver_direction));
    let s1 = step(sink.key(), sink_direction);
    let lo = search_lo(driver, sink);
    let hi = search_hi(driver, sink, before.size);
    let g1 = DetailRouterView { cells: before.cells.insert(d1, GridCell::Occupied(driver_direction, id)), ..before };
    if before.contains(d1) {
        assert(in_search_box(lo, hi, d1));
    }
    if r is Ok && !(before.contains(s1) && sink_connected(g1, s1, d1, id)) {
        let (cells, dirs) = choose|cells: Seq<(int, int, int)>, dirs: Seq<Direction>|
            is_trace(g1, cells, dirs, cells[0], s1, id) && (cells[0] != s1 || s1 == d1)
                && after == with_trace(g1, cells, dirs, id)
                && (forall|i: int| 1 <= i < cells.len() - 1 ==> g1.cells[#[trigger] cells[i]] == GridCell::Free)
                && (forall|i: int| 0 <= i < cells.len() ==> in_search_box(lo, hi, #[trigger] cells[i]));
        assert(g1.wf()) by {
            assert forall|p: (int, int, int)| #[trigger] g1.cells.contains_key(p) <==> g1.contains(p) by {
                assert(before.cells.contains_key(p) <==> before.contains(p));
            }
        }
        assert forall|i: int| 1 <= i < cells.len() implies g1.contains(#[trigger] cells[i]) by {
            assert(!g1.blocked_for(cells[i], id));
        }
        lemma_with_trace_basics(g1, cells, dirs, id);
        let n = cells.len();
        assert forall|p: (int, int, int)| before.contains(p) && #[trigger] after.cells[p] != before.cells[p] implies {
            &&& in_search_box(lo, hi, p)
            &&& cell_owner(after.cells[p]) == Some(id)
            &&& (p == d1 || before.cells[p] == GridCell::Free || (p == s1 && before.owned_by(s1, id)))
        } by {
            if exists|i: int| 1 <= i < n && cells[i] == p {
                let i = choose|i: int| 1 <= i < n && cells[i] == p;
                assert forall|j: int| i < j < n implies cells[j] != cells[i] by {}
                assert(after.cells[cells[i]] == GridCell::Occupied(dirs[i], id));
                assert(!g1.blocked_for(cells[i], id));
                if i < n - 1 {
                    assert(g1.cells[cells[i]] == GridCell::Free);
                }
            } else {
                assert(after.cells[p] == g1.cells[p]);
            }
        }
    }
}

/// Remove and return the entry that comes first in priority order: lowest cost, then highest
/// x, then highest y.
fn pop_best(queue: &mut Vec<QueueItem>) -> (r: QueueItem)
    requires
        old(queue)@.len() > 0,
    ensures
        old(queue)@.contains(r),
        forall|i: int| 0 <= i < old(queue)@.len() ==> r.cost <= #[trigger] old(queue)@[i].cost,
        final(queue)@.len() == old(queue)@.len() - 1,
        forall|i: int| 0 <= i < final(queue)@.len() ==> old(queue)@.contains(#[trigger] final(queue)@[i]),
        forall|i: int| 0 <= i < old(queue)@.len() && old(queue)@[i] != r ==> final(queue)@.contains(#[trigger] old(queue)@[i]),
{
    let n = queue.len();
    let mut best: usize = 0;
    let mut i: usize = 1;
    while i < n
        invariant
            n == queue@.len(),
            n > 0,
            1 <= i <= n,
            best < i,
            forall|j: int| 0 <= j < i ==> queue@[best as int].cost <= #[trigger] queue@[j].cost,
        decreases n - i,
    {
        let a = queue[i];
        let b = queue[best];
        if a.cost < b.cost || (a.cost == b.cost && (a.pos.x > b.pos.x || (a.pos.x == b.pos.x && a.pos.y > b.pos.y))) {
            best = i;
        }
        i = i + 1;
    }
    let ghost old_q = queue@;
    let r = queue.swap_remove(best);
    proof {
        assert(old_q.contains(r)) by { assert(old_q[best as int] == r); }
        assert forall|i: int| 0 <= i < queue@.len() implies old_q.contains(#[trigger] queue@[i]) by {
            if i == best {
                assert(queue@[i] == old_q[old_q.len() - 1]);
            } else {
                assert(queue@[i] == old_q[i]);
            }
        }
        assert forall|i: int| 0 <= i < old_q.len() && old_q[i] != r implies queue@.contains(#[trigger] old_q[i]) by {
            if i == old_q.len() - 1 {
                assert(queue@[best as int] == old_q[i]);
            } else {
                assert(queue@[i] == old_q[i]);
            }
        }
    }
    r
}

impl GridCellPosition {
    /// Whether the position lies in the half-open box `[min, max)`.
    pub open spec fn in_bounds_of(self, min: GridCellPosition, max: GridCellPosition) -> bool {
        min.x <= self.x < max.x && min.y <= self.y < max.y && min.z <= self.z < max.z
    }
}

/// Converting a layer to its compact index and back gives the layer; the same holds for its
/// first block row.
pub proof fn lemma_layer_round_trips(l: Layer)
    ensures
        layer_of_compact(compact_idx(l)) == l,
        0 <= compact_idx(l) < 5,
        layer_of_y(y_idx(l)) == l,
        0 <= y_idx(l) < 16,
{
}

/// Every block row of a tier lies in a layer that starts at or below it.
pub proof fn lemma_layer_of_y_start(y: int)
    requires
        0 <= y < 16,
    ensures
        y_idx(layer_of_y(y)) <= y,
{
}

/// Stepping to the next layer five times comes back to the same layer, and no fewer steps do.
pub proof fn lemma_next_cycle(l: Layer)
    ensures
        spec_next(spec_next(spec_next(spec_next(spec_next(l))))) == l,
        spec_next(l) != l,
        compact_idx(spec_next(l)) == (compact_idx(l) + 1) % 5,
{
}

} // verus!
