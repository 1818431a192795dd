//! Maze router on a 2D grid: breadth-first search from the start, then a backtrack along
//! decreasing scores marks the path with the route's id.

use vstd::prelude::*;

verus! {

/// A cell position on the 2D routing grid.
#[derive(Clone, Copy, Debug, PartialEq, Eq, Structural)]
pub struct Position {
    pub x: u32,
    pub y: u32,
}

impl Position {
    pub fn new(x: u32, y: u32) -> (r: Position)
        ensures
            r == (Position { x, y }),
    {
        Position { x, y }
    }

    /// The position as a pair of integers.
    pub open spec fn key(self) -> (int, int) {
        (self.x as int, self.y as int)
    }
}

/// Identifier of a routed net.
#[derive(Clone, Copy, Debug, PartialEq, Eq, Structural)]
pub struct RouteId(pub u32);

/// Contents of one routing grid cell.
#[derive(Copy, Clone, Debug, PartialEq, Eq, Structural)]
pub enum GridCell {
    Free,
    Occupied(RouteId),
}

/// Why a route could not be made.
#[derive(Debug, PartialEq)]
pub enum RoutingError {
    /// No path connects the two points.
    Unroutable,
    /// A position outside the grid was used.
    OutOfBounds { pos: Position, bounds: (u32, u32) },
}

/// Router over a `size_x` by `size_y` grid.
pub struct Router2D {
    grid: Vec<GridCell>,
    score_grid: Vec<u32>,
    size_x: u32,
    size_y: u32,
}

/// The mathematical value of a [`Router2D`]: its size and the contents of each cell.
pub struct Router2DView {
    pub size_x: nat,
    pub size_y: nat,
    pub cells: Map<(int, int), GridCell>,
}

/// Whether `p` lies on a `sx` by `sy` grid.
pub open spec fn in_grid(sx: int, sy: int, p: (int, int)) -> bool {
    0 <= p.0 < sx && 0 <= p.1 < sy
}

/// Whether two cells share an edge.
pub open spec fn adjacent(a: (int, int), b: (int, int)) -> bool {
    (a.0 == b.0 && (a.1 == b.1 + 1 || b.1 == a.1 + 1)) || (a.1 == b.1 && (a.0 == b.0 + 1 || b.0 == a.0 + 1))
}

/// Index of cell `p` in a grid of width `sx`.
pub open spec fn cell_index(sx: int, p: (int, int)) -> int {
    p.0 + p.1 * sx
}

impl Router2DView {
    /// Whether `p` is on the grid.
    pub open spec fn contains(self, p: (int, int)) -> bool {
        in_grid(self.size_x as int, self.size_y as int, p)
    }

    /// Whether route `id` may pass through cell `p`: it is free or already belongs to `id`.
    pub open spec fn passable(self, p: (int, int), id: RouteId) -> bool {
        self.cells[p] == GridCell::Free || self.cells[p] == GridCell::Occupied(id)
    }

    /// `path` leads from `start` to `end` over adjacent grid cells, each (but the first)
    /// passable for `id`.
    pub open spec fn is_route(self, path: Seq<(int, int)>, start: (int, int), end: (int, int), id: RouteId) -> bool {
        &&& path.len() >= 1
        &&& path[0] == start
        &&& path.last() == end
        &&& forall|i: int| 0 <= i < path.len() ==> self.contains(#[trigger] path[i])
        &&& forall|i: int| 0 <= i < path.len() - 1 ==> adjacent(#[trigger] path[i], path[i + 1])
        &&& forall|i: int| 1 <= i < path.len() ==> self.passable(#[trigger] path[i], id)
    }

    /// Whether some route connects `start` to `end`.
    pub open spec fn routable(self, start: (int, int), end: (int, int), id: RouteId) -> bool {
        exists|path: Seq<(int, int)>| self.is_route(path, start, end, id)
    }

    /// The grid with every cell of `path` occupied by `id`.
    pub open spec fn with_route(self, path: Seq<(int, int)>, id: RouteId) -> Router2DView {
        Router2DView {
            cells: Map::new(
                |p: (int, int)| self.cells.contains_key(p),
                |p: (int, int)| if path.contains(p) { GridCell::Occupied(id) } else { self.cells[p] },
            ),
            ..self
        }
    }

    /// The grid with every cell occupied by `id` freed.
    pub open spec fn without_route(self, id: RouteId) -> Router2DView {
        Router2DView {
            cells: Map::new(
                |p: (int, int)| self.cells.contains_key(p),
                |p: (int, int)| if self.cells[p] == GridCell::Occupied(id) { GridCell::Free } else { self.cells[p] },
            ),
            ..self
        }
    }

    /// Cells cover exactly the grid.
    pub open spec fn wf(self) -> bool {
        forall|p: (int, int)| #[trigger] self.cells.contains_key(p) <==> self.contains(p)
    }
}

/// The view of a router with the given grid.
pub open spec fn grid_view(sx: u32, sy: u32, grid: Seq<GridCell>) -> Router2DView {
    Router2DView {
        size_x: sx as nat,
        size_y: sy as nat,
        cells: Map::new(
            |p: (int, int)| in_grid(sx as int, sy as int, p),
            |p: (int, int)| grid[cell_index(sx as int, p)],
        ),
    }
}

impl View for Router2D {
    type V = Router2DView;

    closed spec fn view(&self) -> Router2DView {
        grid_view(self.size_x, self.size_y, self.grid@)
    }
}

proof fn lemma_cell_index(sx: int, sy: int, p: (int, int))
    requires
        in_grid(sx, sy, p),
    ensures
        0 <= cell_index(sx, p) < sx * sy,
        cell_index(sx, p) % sx == p.0,
        cell_index(sx, p) / sx == p.1,
{
    assert(0 <= cell_index(sx, p) < sx * sy) by (nonlinear_arith)
        requires 0 <= p.0 < sx, 0 <= p.1 < sy;
    vstd::arithmetic::div_mod::lemma_fundamental_div_mod_converse(cell_index(sx, p), sx, p.1, p.0);
}

proof fn lemma_cell_index_injective(sx: int, sy: int, p: (int, int), q: (int, int))
    requires
        in_grid(sx, sy, p),
        in_grid(sx, sy, q),
        p != q,
    ensures
        cell_index(sx, p) != cell_index(sx, q),
{
    lemma_cell_index(sx, sy, p);
    lemma_cell_index(sx, sy, q);
}

impl Router2D {
    /// Internal consistency of the grids.
    pub closed spec fn wf(&self) -> bool {
        &&& self.size_x * self.size_y <= u32::MAX
        &&& self.grid@.len() == self.size_x * self.size_y
        &&& self.score_grid@.len() == self.size_x * self.size_y
    }

    /// A router over an empty `size_x` by `size_y` grid.
    pub fn new(size_x: u32, size_y: u32) -> (r: Router2D)
        requires
            size_x * size_y <= u32::MAX,
        ensures
            r.wf(),
            r@.wf(),
            r@.size_x == size_x,
            r@.size_y == size_y,
            forall|p: (int, int)| r@.contains(p) ==> #[trigger] r@.cells[p] == GridCell::Free,
    {
        let size = size_x * size_y;
        let grid: Vec<GridCell> = vec![GridCell::Free; size as usize];
        let score_grid: Vec<u32> = vec![0u32; size as usize];
        let r = Router2D { grid, score_grid, size_x, size_y };
        proof {
            assert forall|p: (int, int)| r@.contains(p) implies #[trigger] r@.cells[p] == GridCell::Free by {
                lemma_cell_index(size_x as int, size_y as int, p);
            }
        }
        r
    }

    /// The grid index of `pos`, or an error when `pos` is off the grid.
    fn pos_to_idx(&self, pos: Position) -> (r: Result<usize, RoutingError>)
        requires
            self.wf(),
        ensures
            match r {
                Ok(i) => self@.contains(pos.key()) && i == cell_index(self.size_x as int, pos.key())
                    && i < self.grid@.len(),
                Err(e) => !self@.contains(pos.key()) && e == (RoutingError::OutOfBounds {
                    pos,
                    bounds: (self.size_x, self.size_y),
                }),
            },
    {
        if pos.x >= self.size_x || pos.y >= self.size_y {
            Err(RoutingError::OutOfBounds { pos, bounds: (self.size_x, self.size_y) })
        } else {
            proof {
                lemma_cell_index(self.size_x as int, self.size_y as int, pos.key());
            }
            Ok((pos.x + pos.y * self.size_x) as usize)
        }
    }

    /// The route occupying `pos`, if any; an error when `pos` is off the grid.
    pub fn is_cell_occupied(&self, pos: Position) -> (r: Result<Option<RouteId>, RoutingError>)
        requires
            self.wf(),
        ensures
            self@.contains(pos.key()) ==> r == Ok::<Option<RouteId>, RoutingError>(
                match self@.cells[pos.key()] {
                    GridCell::Free => None,
                    GridCell::Occupied(id) => Some(id),
                },
            ),
            !self@.contains(pos.key()) ==> r == Err::<Option<RouteId>, RoutingError>(
                RoutingError::OutOfBounds { pos, bounds: (self@.size_x as u32, self@.size_y as u32) },
            ),
    {
        let idx = self.pos_to_idx(pos)?;
        match self.grid[idx] {
            GridCell::Free => Ok(None),
            GridCell::Occupied(item) => Ok(Some(item)),
        }
    }

    /// Mark the cell at `pos` as occupied by route `id`.
    pub fn mark_cell_occupied(&mut self, pos: Position, id: RouteId) -> (r: Result<(), RoutingError>)
        requires
            old(self).wf(),
        ensures
            final(self).wf(),
            old(self)@.contains(pos.key()) ==> r is Ok
                && final(self)@ == (Router2DView { cells: old(self)@.cells.insert(pos.key(), GridCell::Occupied(id)), ..old(self)@ }),
            !old(self)@.contains(pos.key()) ==> r == Err::<(), RoutingError>(
                RoutingError::OutOfBounds { pos, bounds: (old(self)@.size_x as u32, old(self)@.size_y as u32) },
            ) && final(self)@ == old(self)@,
    {
        let idx = self.pos_to_idx(pos)?;
        self.grid.set(idx, GridCell::Occupied(id));
        proof {
            let a = self@;
            let b = Router2DView { cells: old(self)@.cells.insert(pos.key(), GridCell::Occupied(id)), ..old(self)@ };
            assert forall|p: (int, int)| #[trigger] a.cells.contains_key(p) implies a.cells[p] == b.cells[p] by {
                lemma_cell_index(self.size_x as int, self.size_y as int, p);
                if p != pos.key() {
                    lemma_cell_index_injective(self.size_x as int, self.size_y as int, p, pos.key());
                }
            }
            assert(a.cells =~= b.cells);
        }
        Ok(())
    }

    /// Free every cell occupied by route `id`.
    pub fn rip_up(&mut self, id: RouteId) -> (r: Result<(), RoutingError>)
        requires
            old(self).wf(),
        ensures
            final(self).wf(),
            r is Ok,
            final(self)@ == old(self)@.without_route(id),
    {
        let n = self.grid.len();
        let mut i: usize = 0;
        while i < n
            invariant
                n == self.grid@.len(),
                i <= n,
                self.size_x == old(self).size_x,
                self.size_y == old(self).size_y,
                self.score_grid == old(self).score_grid,
                n == old(self).grid@.len(),
                forall|j: int| 0 <= j < i ==> self.grid@[j] == (if old(self).grid@[j] == GridCell::Occupied(id) {
                    GridCell::Free
                } else {
                    old(self).grid@[j]
                }),
                forall|j: int| i <= j < n ==> self.grid@[j] == old(self).grid@[j],
            decreases n - i,
        {
            if self.grid[i] == GridCell::Occupied(id) {
                self.grid.set(i, GridCell::Free);
            }
            i = i + 1;
        }
        proof {
            let a = self@;
            let b = old(self)@.without_route(id);
            assert forall|p: (int, int)| #[trigger] a.cells.contains_key(p) implies a.cells[p] == b.cells[p] by {
                lemma_cell_index(self.size_x as int, self.size_y as int, p);
                let j = cell_index(self.size_x as int, p);
                assert(a.cells[p] == self.grid@[j]);
                assert(old(self)@.cells[p] == old(self).grid@[j]);
            }
            assert(a.cells =~= b.cells);
        }
        Ok(())
    }
}

/// An entry of the search queue.
#[derive(Clone, Copy)]
struct QueueItem {
    cost: u32,
    pos: Position,
}

/// Score of cell `p` in a score grid of width `sx`.
pub open spec fn score_of(sx: int, scores: Seq<u32>, p: (int, int)) -> u32 {
    scores[cell_index(sx, p)]
}

/// Whether cell `p` has been reached by the search.
pub open spec fn reached(sx: int, scores: Seq<u32>, p: (int, int)) -> bool {
    scores[cell_index(sx, p)] != u32::MAX
}

/// Remove and return the entry that comes first in priority order.
fn pop_best(queue: &mut Vec<QueueItem>) -> (r: QueueItem)
    requires
        old(queue)@.len() > 0,
    ensures
        old(queue)@.contains(r),
        forall|i: int| 0 <= i < old(queue)@.len() ==> r.cost <= #[trigger] old(queue)@[i].cost,
        final(queue)@.len() == old(queue)@.len() - 1,
        forall|i: int| 0 <= i < final(queue)@.len() ==> old(queue)@.contains(#[trigger] final(queue)@[i]),
        forall|i: int| 0 <= i < old(queue)@.len() && old(queue)@[i] != r ==> final(queue)@.contains(#[trigger] old(queue)@[i]),
{
    let n = queue.len();
    let mut best: usize = 0;
    let mut i: usize = 1;
    while i < n
        invariant
            n == queue@.len(),
            n > 0,
            1 <= i <= n,
            best < i,
            forall|j: int| 0 <= j < i ==> queue@[best as int].cost <= #[trigger] queue@[j].cost,
        decreases n - i,
    {
        let a = queue[i];
        let b = queue[best];
        if a.cost < b.cost || (a.cost == b.cost && (a.pos.x > b.pos.x || (a.pos.x == b.pos.x && a.pos.y > b.pos.y))) {
            best = i;
        }
        i = i + 1;
    }
    let ghost old_q = queue@;
    let r = queue.swap_remove(best);
    proof {
        assert(old_q.contains(r)) by { assert(old_q[best as int] == r); }
        assert forall|i: int| 0 <= i < queue@.len() implies old_q.contains(#[trigger] queue@[i]) by {
            if i == best {
                assert(queue@[i] == old_q[old_q.len() - 1]);
            } else {
                assert(queue@[i] == old_q[i]);
            }
        }
        assert forall|i: int| 0 <= i < old_q.len() && old_q[i] != r implies queue@.contains(#[trigger] old_q[i]) by {
            if i == old_q.len() - 1 {
                assert(queue@[best as int] == old_q[i]);
            } else {
                assert(i != best);
                assert(queue@[i] == old_q[i]);
            }
        }
    }
    r
}

impl Router2D {
    /// The in-grid neighbours of `pos`, in the order x-1, x+1, y-1, y+1.
    fn neighbors(&self, pos: Position) -> (r: Vec<Position>)
        requires
            self.wf(),
            self@.contains(pos.key()),
        ensures
            forall|i: int| 0 <= i < r@.len() ==> self@.contains(#[trigger] r@[i].key()) && adjacent(pos.key(), r@[i].key()),
            forall|m: (int, int)| self@.contains(m) && adjacent(pos.key(), m) ==> exists|i: int| 0 <= i < r@.len() && #[trigger] r@[i].key() == m,
            r@.len() <= 4,
    {
        let mut r: Vec<Position> = Vec::new();
        if pos.x > 0 {
            r.push(Position::new(pos.x - 1, pos.y));
        }
        if pos.x + 1 < self.size_x {
            r.push(Position::new(pos.x + 1, pos.y));
        }
        if pos.y > 0 {
            r.push(Position::new(pos.x, pos.y - 1));
        }
        if pos.y + 1 < self.size_y {
            r.push(Position::new(pos.x, pos.y + 1));
        }
        proof {
            assert forall|m: (int, int)| self@.contains(m) && adjacent(pos.key(), m) implies exists|i: int| 0 <= i < r@.len() && #[trigger] r@[i].key() == m by {
                let k = r@.len();
                if m == (pos.x - 1, pos.y as int) {
                    assert(r@[0].key() == m);
                } else if m == (pos.x + 1, pos.y as int) {
                    let i = if pos.x > 0 { 1int } else { 0int };
                    assert(r@[i].key() == m);
                } else if m == (pos.x as int, pos.y - 1) {
                    let i = (if pos.x > 0 { 1int } else { 0int }) + (if pos.x + 1 < self.size_x { 1int } else { 0int });
                    assert(r@[i].key() == m);
                } else {
                    let i = (if pos.x > 0 { 1int } else { 0int }) + (if pos.x + 1 < self.size_x { 1int } else { 0int })
                        + (if pos.y > 0 { 1int } else { 0int });
                    assert(r@[i].key() == m);
                }
            }
        }
        r
    }
}

/// The search state: queue entries, reached cells and the frontier bookkeeping.
spec fn search_inv(
    sx: int,
    sy: int,
    g: Router2DView,
    scores: Seq<u32>,
    q: Seq<QueueItem>,
    start: (int, int),
    end: (int, int),
    id: RouteId,
    level: int,
    seen: Set<int>,
) -> bool {
    &&& scores.len() == sx * sy
    &&& 0 <= level
    &&& forall|i: int| 0 <= i < q.len() ==> queue_entry_ok(sx, sy, g, scores, #[trigger] q[i], start, id, level)
    &&& forall|p: (int, int)| in_grid(sx, sy, p) && #[trigger] reached(sx, scores, p) ==> reached_ok(sx, sy, g, scores, p, start, id, level)
    &&& in_grid(sx, sy, end) ==> !reached(sx, scores, end)
    &&& forall|p: (int, int), m: (int, int)|
        in_grid(sx, sy, p) && in_grid(sx, sy, m) && #[trigger] reached(sx, scores, p) && #[trigger] adjacent(p, m) && g.passable(m, id)
            ==> reached(sx, scores, m) || queued_by(q, m, score_of(sx, scores, p) + 1)
    &&& in_grid(sx, sy, start) && !reached(sx, scores, start) ==> seen.len() == 0
    &&& seen.finite()
    &&& forall|j: int| #[trigger] seen.contains(j) <==> 0 <= j < sx * sy && scores[j] != u32::MAX
    &&& seen.len() == 0 ==> level == 0 && forall|i: int| 0 <= i < q.len() ==> (#[trigger] q[i]).cost == 0
    &&& seen.len() > 0 ==> level < seen.len()
}

/// Some queue entry is for cell `m`.
spec fn queued(q: Seq<QueueItem>, m: (int, int)) -> bool {
    exists|i: int| 0 <= i < q.len() && (#[trigger] q[i]).pos.key() == m
}

/// Some queue entry is for cell `m`, at a cost of at most `c`.
spec fn queued_by(q: Seq<QueueItem>, m: (int, int), c: int) -> bool {
    exists|i: int| 0 <= i < q.len() && (#[trigger] q[i]).pos.key() == m && q[i].cost <= c
}

/// No reached cell has a route from `start` with fewer steps than its score.
#[verifier::opaque]
spec fn reach_lower_bound(sx: int, sy: int, g: Router2DView, scores: Seq<u32>, start: (int, int), id: RouteId) -> bool {
    forall|p: (int, int), w: Seq<(int, int)>| #![trigger reached(sx, scores, p), g.is_route(w, start, p, id)]
        in_grid(sx, sy, p) && reached(sx, scores, p) && g.is_route(w, start, p, id) ==> score_of(sx, scores, p) + 1 <= w.len()
}

/// A route from `start` to a cell the search has not reached passes through a cell waiting in
/// the queue at a cost of at most the route's number of steps.
proof fn lemma_route_reaches_queue(sx: int, sy: int, g: Router2DView, scores: Seq<u32>, q: Seq<QueueItem>, start: (int, int),
    id: RouteId, w: Seq<(int, int)>, x: (int, int))
    requires
        g.size_x == sx,
        g.size_y == sy,
        g.is_route(w, start, x, id),
        !reached(sx, scores, x),
        !reached(sx, scores, start) ==> queued_by(q, start, 0),
        reach_lower_bound(sx, sy, g, scores, start, id),
        forall|p: (int, int), m: (int, int)|
            in_grid(sx, sy, p) && in_grid(sx, sy, m) && #[trigger] reached(sx, scores, p) && #[trigger] adjacent(p, m) && g.passable(m, id)
                ==> reached(sx, scores, m) || queued_by(q, m, score_of(sx, scores, p) + 1),
    ensures
        exists|i: int| 0 <= i < q.len() && (#[trigger] q[i]).cost + 1 <= w.len(),
    decreases w.len(),
{
    if w.len() == 1 {
        let i = choose|i: int| 0 <= i < q.len() && (#[trigger] q[i]).pos.key() == start && q[i].cost <= 0;
        assert(q[i].cost + 1 <= w.len());
    } else {
        let w2 = w.drop_last();
        let y = w2.last();
        assert(g.is_route(w2, start, y, id)) by {
            assert forall|i: int| 0 <= i < w2.len() implies g.contains(#[trigger] w2[i]) by {
                assert(w2[i] == w[i]);
            }
            assert forall|i: int| 0 <= i < w2.len() - 1 implies adjacent(#[trigger] w2[i], w2[i + 1]) by {
                assert(w2[i] == w[i]);
                assert(w2[i + 1] == w[i + 1]);
            }
            assert forall|i: int| 1 <= i < w2.len() implies g.passable(#[trigger] w2[i], id) by {
                assert(w2[i] == w[i]);
            }
        }
        if !reached(sx, scores, y) {
            lemma_route_reaches_queue(sx, sy, g, scores, q, start, id, w2, y);
            let i = choose|i: int| 0 <= i < q.len() && (#[trigger] q[i]).cost + 1 <= w2.len();
            assert(q[i].cost + 1 <= w.len());
        } else {
            reveal(reach_lower_bound);
            assert(g.contains(w[w.len() - 2]));
            assert(score_of(sx, scores, y) + 1 <= w2.len());
            assert(adjacent(w[w.len() - 2], w[w.len() - 1]));
            assert(g.passable(w[w.len() - 1], id));
            assert(g.contains(w[w.len() - 1]));
            assert(queued_by(q, x, score_of(sx, scores, y) + 1));
            let i = choose|i: int| 0 <= i < q.len() && (#[trigger] q[i]).pos.key() == x && q[i].cost <= score_of(sx, scores, y) + 1;
            assert(q[i].cost + 1 <= w.len());
        }
    }
}

/// Scoring cell `x` with a cost no route from `start` to it undercuts keeps reached cells'
/// scores below the lengths of their routes.
proof fn lemma_lower_bound_after_score(sx: int, sy: int, g: Router2DView, s0: Seq<u32>, s1: Seq<u32>, x: (int, int), c: u32,
    start: (int, int), id: RouteId)
    requires
        g.size_x == sx,
        g.size_y == sy,
        s0.len() == sx * sy,
        in_grid(sx, sy, x),
        s1 == s0.update(cell_index(sx, x), c),
        reach_lower_bound(sx, sy, g, s0, start, id),
        forall|w: Seq<(int, int)>| g.is_route(w, start, x, id) ==> c + 1 <= w.len(),
    ensures
        reach_lower_bound(sx, sy, g, s1, start, id),
{
    reveal(reach_lower_bound);
    lemma_cell_index(sx, sy, x);
    assert forall|p: (int, int), w: Seq<(int, int)>| #![trigger reached(sx, s1, p), g.is_route(w, start, p, id)]
        in_grid(sx, sy, p) && reached(sx, s1, p) && g.is_route(w, start, p, id) implies score_of(sx, s1, p) + 1 <= w.len() by {
        lemma_cell_index(sx, sy, p);
        if p != x {
            lemma_cell_index_injective(sx, sy, p, x);
            assert(reached(sx, s0, p));
        }
    }
}

spec fn queue_entry_ok(sx: int, sy: int, g: Router2DView, scores: Seq<u32>, it: QueueItem, start: (int, int), id: RouteId, level: int) -> bool {
    let p = it.pos.key();
    &&& in_grid(sx, sy, p) || (p == start && it.cost == 0)
    &&& it.cost < u32::MAX
    &&& level <= it.cost <= level + 1
    &&& it.cost == 0 ==> p == start
    &&& it.cost > 0 ==> exists|m: (int, int)| in_grid(sx, sy, m) && #[trigger] adjacent(m, p) && score_of(sx, scores, m) < it.cost
    &&& p != start ==> g.passable(p, id)
}

spec fn reached_ok(sx: int, sy: int, g: Router2DView, scores: Seq<u32>, p: (int, int), start: (int, int), id: RouteId, level: int) -> bool {
    &&& score_of(sx, scores, p) <= level
    &&& score_of(sx, scores, p) == 0 ==> p == start
    &&& score_of(sx, scores, p) > 0 ==> exists|m: (int, int)|
        in_grid(sx, sy, m) && #[trigger] adjacent(m, p) && score_of(sx, scores, m) < score_of(sx, scores, p)
    &&& p == start || g.passable(p, id)
}

proof fn lemma_seen_full(seen: Set<int>, n: int, j: int)
    requires
        seen.finite(),
        forall|k: int| #[trigger] seen.contains(k) ==> 0 <= k < n,
        seen.len() >= n,
        0 <= j < n,
    ensures
        seen.contains(j),
{
    let full = vstd::set_lib::set_int_range(0, n);
    vstd::set_lib::lemma_int_range(0, n);
    assert(seen.subset_of(full));
    vstd::set_lib::lemma_len_subset(seen, full);
    vstd::set_lib::lemma_subset_equality(seen, full);
    assert(full.contains(j));
}

proof fn lemma_seen_bounded(seen: Set<int>, n: int)
    requires
        seen.finite(),
        0 <= n,
        forall|k: int| #[trigger] seen.contains(k) ==> 0 <= k < n,
    ensures
        seen.len() <= n,
{
    let full = vstd::set_lib::set_int_range(0, n);
    vstd::set_lib::lemma_int_range(0, n);
    assert(seen.subset_of(full));
    vstd::set_lib::lemma_len_subset(seen, full);
}

proof fn lemma_mark_cell(sx: u32, sy: u32, grid: Seq<GridCell>, g: Router2DView, marked: Seq<(int, int)>, p: (int, int), id: RouteId)
    requires
        grid.len() == sx * sy,
        g.size_x == sx,
        g.size_y == sy,
        g.wf(),
        grid_view(sx, sy, grid) == g.with_route(marked, id),
        in_grid(sx as int, sy as int, p),
    ensures
        grid_view(sx, sy, grid.update(cell_index(sx as int, p), GridCell::Occupied(id))) == g.with_route(marked.push(p), id),
{
    let a = grid_view(sx, sy, grid.update(cell_index(sx as int, p), GridCell::Occupied(id)));
    let b = g.with_route(marked.push(p), id);
    let c = g.with_route(marked, id);
    lemma_cell_index(sx as int, sy as int, p);
    assert forall|m: (int, int)| #[trigger] a.cells.contains_key(m) implies a.cells[m] == b.cells[m] by {
        lemma_cell_index(sx as int, sy as int, m);
        assert(c.cells.contains_key(m));
        assert(grid_view(sx, sy, grid).cells[m] == c.cells[m]);
        if m != p {
            lemma_cell_index_injective(sx as int, sy as int, m, p);
            assert(marked.push(p).contains(m) == marked.contains(m)) by {
                if marked.contains(m) {
                    let i = choose|i: int| 0 <= i < marked.len() && marked[i] == m;
                    assert(marked.push(p)[i] == m);
                }
                if marked.push(p).contains(m) {
                    let i = choose|i: int| 0 <= i < marked.len() + 1 && marked.push(p)[i] == m;
                    assert(marked[i] == m);
                }
            }
        } else {
            assert(marked.push(p)[marked.len() as int] == m);
        }
    }
    assert(a.cells =~= b.cells);
}

proof fn lemma_route_all_reached(sx: int, sy: int, g: Router2DView, scores: Seq<u32>, path: Seq<(int, int)>, start: (int, int), end: (int, int), id: RouteId, i: int)
    requires
        g.size_x == sx,
        g.size_y == sy,
        g.is_route(path, start, end, id),
        0 <= i < path.len(),
        reached(sx, scores, start),
        forall|p: (int, int), m: (int, int)|
            in_grid(sx, sy, p) && in_grid(sx, sy, m) && #[trigger] reached(sx, scores, p) && #[trigger] adjacent(p, m) && g.passable(m, id)
                ==> reached(sx, scores, m),
    ensures
        reached(sx, scores, path[i]),
    decreases i,
{
    if i > 0 {
        lemma_route_all_reached(sx, sy, g, scores, path, start, end, id, i - 1);
        assert(adjacent(path[i - 1], path[i]));
        assert(g.contains(path[i - 1]) && g.contains(path[i]));
        assert(g.passable(path[i], id));
    }
}

impl Router2D {
    /// Walk back from `end` to `start` along strictly decreasing scores, marking every cell of
    /// the walk with `id`.
    fn backtrack(&mut self, start: Position, end: Position, id: RouteId, Ghost(g): Ghost<Router2DView>, Ghost(level): Ghost<int>) -> (r: Result<(), RoutingError>)
        requires
            old(self).wf(),
            old(self)@ == g,
            g.wf(),
            in_grid(g.size_x as int, g.size_y as int, start.key()),
            in_grid(g.size_x as int, g.size_y as int, end.key()),
            reached(g.size_x as int, old(self).score_grid@, end.key()),
            forall|p: (int, int)| in_grid(g.size_x as int, g.size_y as int, p) && #[trigger] reached(g.size_x as int, old(self).score_grid@, p)
                ==> reached_ok(g.size_x as int, g.size_y as int, g, old(self).score_grid@, p, start.key(), id, level),
        ensures
            r is Ok,
            final(self).wf(),
            exists|path: Seq<(int, int)>| g.is_route(path, start.key(), end.key(), id) && final(self)@ == g.with_route(path, id)
                && path.len() <= score_of(g.size_x as int, old(self).score_grid@, end.key()) + 1,
    {
        let ghost sx = self.size_x as int;
        let ghost sy = self.size_y as int;
        let ghost scores = self.score_grid@;
        let mut bt = end;
        let ghost mut rev: Seq<(int, int)> = seq![end.key()];
        proof {
            assert(g.with_route(rev.drop_last(), id).cells =~= g.cells);
            assert(self@.cells =~= g.with_route(rev.drop_last(), id).cells);
        }
        while bt != start
            invariant
                self.wf(),
                self.size_x == sx,
                self.size_y == sy,
                self.score_grid@ == scores,
                g.wf(),
                g.size_x == sx,
                g.size_y == sy,
                in_grid(sx, sy, start.key()),
                forall|p: (int, int)| in_grid(sx, sy, p) && #[trigger] reached(sx, scores, p)
                    ==> reached_ok(sx, sy, g, scores, p, start.key(), id, level),
                rev.len() >= 1,
                rev[0] == end.key(),
                rev.last() == bt.key(),
                in_grid(sx, sy, bt.key()),
                reached(sx, scores, bt.key()),
                forall|i: int| 0 <= i < rev.len() ==> in_grid(sx, sy, #[trigger] rev[i]),
                forall|i: int| 0 <= i < rev.len() - 1 ==> adjacent(#[trigger] rev[i], rev[i + 1]),
                forall|i: int| 0 <= i < rev.len() - 1 ==> #[trigger] rev[i] != start.key() && g.passable(rev[i], id),
                self@ == g.with_route(rev.drop_last(), id),
                score_of(sx, scores, bt.key()) + rev.len() <= score_of(sx, scores, end.key()) + 1,
            decreases score_of(sx, scores, bt.key()),
        {
            let bidx = match self.pos_to_idx(bt) {
                Ok(i) => i,
                Err(e) => return Err(e),
            };
            proof {
                lemma_mark_cell(self.size_x, self.size_y, self.grid@, g, rev.drop_last(), bt.key(), id);
                assert(rev.drop_last().push(bt.key()) =~= rev);
            }
            self.grid.set(bidx, GridCell::Occupied(id));
            let ghost marked_grid = self.grid@;
            let here = self.score_grid[bidx];
            let mut min = here;
            let mut min_pos = bt;
            let nbs = self.neighbors(bt);
            let mut k: usize = 0;
            while k < nbs.len()
                invariant
                    self.wf(),
                    self.size_x == sx,
                    self.size_y == sy,
                    self.score_grid@ == scores,
                    self.grid@ == marked_grid,
                    here == score_of(sx, scores, bt.key()),
                    in_grid(sx, sy, bt.key()),
                    forall|i: int| 0 <= i < nbs@.len() ==> in_grid(sx, sy, #[trigger] nbs@[i].key()) && adjacent(bt.key(), nbs@[i].key()),
                    k <= nbs@.len(),
                    min <= here,
                    min == here ==> min_pos == bt,
                    min < here ==> in_grid(sx, sy, min_pos.key()) && adjacent(bt.key(), min_pos.key())
                        && score_of(sx, scores, min_pos.key()) == min,
                    forall|j: int| 0 <= j < k ==> min <= score_of(sx, scores, #[trigger] nbs@[j].key()),
                decreases nbs@.len() - k,
            {
                let nb = nbs[k];
                let nidx = match self.pos_to_idx(nb) {
                    Ok(i) => i,
                    Err(_) => 0,
                };
                let sc = self.score_grid[nidx];
                if sc < min {
                    min = sc;
                    min_pos = nb;
                }
                k = k + 1;
            }
            proof {
                assert(bt.key() != start.key()) by {
                    if bt.key() == start.key() {
                        assert(bt == start);
                    }
                }
                assert(reached_ok(sx, sy, g, scores, bt.key(), start.key(), id, level));
                let m = choose|m: (int, int)| in_grid(sx, sy, m) && #[trigger] adjacent(m, bt.key())
                    && score_of(sx, scores, m) < score_of(sx, scores, bt.key());
                assert(adjacent(bt.key(), m));
                let j = choose|j: int| 0 <= j < nbs@.len() && #[trigger] nbs@[j].key() == m;
                assert(min <= score_of(sx, scores, nbs@[j].key()));
                assert(min < here);
                assert(adjacent(min_pos.key(), bt.key()));
            }
            bt = min_pos;
            proof {
                let old_rev = rev;
                rev = rev.push(bt.key());
                assert(rev.drop_last() =~= old_rev);
            }
        }
        proof {
            lemma_mark_cell(self.size_x, self.size_y, self.grid@, g, rev.drop_last(), bt.key(), id);
            assert(rev.drop_last().push(bt.key()) =~= rev);
        }
        let sidx = match self.pos_to_idx(bt) {
            Ok(i) => i,
            Err(e) => return Err(e),
        };
        self.grid.set(sidx, GridCell::Occupied(id));
        proof {
            let path = rev.reverse();
            assert(path[0] == start.key());
            assert(path.last() == end.key());
            assert forall|i: int| 0 <= i < path.len() implies g.contains(#[trigger] path[i]) by {
                assert(path[i] == rev[rev.len() - 1 - i]);
            }
            assert forall|i: int| 0 <= i < path.len() - 1 implies adjacent(#[trigger] path[i], path[i + 1]) by {
                let j = rev.len() - 2 - i;
                assert(path[i] == rev[j + 1]);
                assert(path[i + 1] == rev[j]);
                assert(adjacent(rev[j], rev[j + 1]));
            }
            assert forall|i: int| 1 <= i < path.len() implies g.passable(#[trigger] path[i], id) by {
                let j = rev.len() - 1 - i;
                assert(path[i] == rev[j]);
                assert(rev[j] != start.key() && g.passable(rev[j], id));
            }
            assert(g.is_route(path, start.key(), end.key(), id));
            assert forall|m: (int, int)| path.contains(m) == rev.contains(m) by {
                if path.contains(m) {
                    let i = choose|i: int| 0 <= i < path.len() && path[i] == m;
                    assert(rev[rev.len() - 1 - i] == m);
                }
                if rev.contains(m) {
                    let i = choose|i: int| 0 <= i < rev.len() && rev[i] == m;
                    assert(path[rev.len() - 1 - i] == m);
                }
            }
            assert(g.with_route(path, id).cells =~= g.with_route(rev, id).cells);
        }
        Ok(())
    }
}

impl Router2D {
    /// Route a path for `id` from `start` to `end` through cells that are free or already
    /// belong to `id`, and mark the path's cells as occupied by `id`. The path is a shortest
    /// one: no route between the two has fewer cells.
    ///
    /// Fails with `OutOfBounds` when `start` is off the grid, and with `Unroutable` when no
    /// such path exists; the grid is then left unchanged.
    pub fn route(&mut self, start: Position, end: Position, id: RouteId) -> (r: Result<(), RoutingError>)
        requires
            old(self).wf(),
        ensures
            final(self).wf(),
            final(self)@.size_x == old(self)@.size_x,
            final(self)@.size_y == old(self)@.size_y,
            !old(self)@.contains(start.key()) ==> r == Err::<(), RoutingError>(RoutingError::OutOfBounds {
                pos: start,
                bounds: (old(self)@.size_x as u32, old(self)@.size_y as u32),
            }),
            old(self)@.contains(start.key()) ==> (r is Ok <==> old(self)@.routable(start.key(), end.key(), id)),
            old(self)@.contains(start.key()) && r is Err ==> r == Err::<(), RoutingError>(RoutingError::Unroutable),
            r is Ok ==> exists|path: Seq<(int, int)>|
                old(self)@.is_route(path, start.key(), end.key(), id) && final(self)@ == old(self)@.with_route(path, id)
                    && forall|other: Seq<(int, int)>| old(self)@.is_route(other, start.key(), end.key(), id) ==> path.len() <= other.len(),
            r is Err ==> final(self)@ == old(self)@,
    {
        let ghost g = self@;
        let ghost sx = self.size_x as int;
        let ghost sy = self.size_y as int;
        let n = self.score_grid.len();
        let mut i: usize = 0;
        while i < n
            invariant
                self.wf(),
                self@ == g,
                self.size_x == sx,
                self.size_y == sy,
                n == self.score_grid@.len(),
                i <= n,
                forall|j: int| 0 <= j < i ==> self.score_grid@[j] == u32::MAX,
            decreases n - i,
        {
            self.score_grid.set(i, u32::MAX);
            i = i + 1;
        }
        let mut queue: Vec<QueueItem> = Vec::new();
        queue.push(QueueItem { cost: 0, pos: start });
        let ghost mut level: int = 0;
        let ghost mut seen: Set<int> = Set::empty();
        proof {
            assert forall|j: int| #[trigger] seen.contains(j) <==> 0 <= j < sx * sy && self.score_grid@[j] != u32::MAX by {}
            assert forall|p: (int, int)| in_grid(sx, sy, p) implies !#[trigger] reached(sx, self.score_grid@, p) by {
                lemma_cell_index(sx, sy, p);
            }
            assert(queue_entry_ok(sx, sy, g, self.score_grid@, queue@[0], start.key(), id, level));
            assert(reach_lower_bound(sx, sy, g, self.score_grid@, start.key(), id)) by {
                reveal(reach_lower_bound);
            }
        }
        while queue.len() > 0
            invariant
                self.wf(),
                self@ == g,
                g == old(self)@,
                g.wf(),
                self.size_x == sx,
                self.size_y == sy,
                search_inv(sx, sy, g, self.score_grid@, queue@, start.key(), end.key(), id, level, seen),
                reach_lower_bound(sx, sy, g, self.score_grid@, start.key(), id),
                in_grid(sx, sy, start.key()) ==> reached(sx, self.score_grid@, start.key()) || queued(queue@, start.key()),
                !in_grid(sx, sy, start.key()) ==> queue@.len() == 1 && queue@[0].pos == start,
            decreases (sx * sy - seen.len()) * 5 + queue@.len(),
        {
            proof {
                lemma_seen_bounded(seen, sx * sy);
            }
            let ghost q0 = queue@;
            let item = pop_best(&mut queue);
            let ghost s0 = self.score_grid@;
            let idx = match self.pos_to_idx(item.pos) {
                Ok(i) => i,
                Err(e) => {
                    proof {
                        let k = choose|k: int| 0 <= k < q0.len() && q0[k] == item;
                        assert(queue_entry_ok(sx, sy, g, s0, q0[k], start.key(), id, level));
                    }
                    return Err(e);
                },
            };
            proof {
                let k = choose|k: int| 0 <= k < q0.len() && q0[k] == item;
                assert(queue_entry_ok(sx, sy, g, s0, q0[k], start.key(), id, level));
                lemma_cell_index(sx, sy, item.pos.key());
            }
            if item.cost >= self.score_grid[idx] {
                proof {
                    assert(reached(sx, s0, item.pos.key()));
                    assert forall|p: (int, int), m: (int, int)|
                        in_grid(sx, sy, p) && in_grid(sx, sy, m) && #[trigger] reached(sx, s0, p) && #[trigger] adjacent(p, m) && g.passable(m, id)
                            implies reached(sx, s0, m) || queued_by(queue@, m, score_of(sx, s0, p) + 1) by {
                        if !reached(sx, s0, m) {
                            assert(queued_by(q0, m, score_of(sx, s0, p) + 1));
                            let i = choose|i: int| 0 <= i < q0.len() && (#[trigger] q0[i]).pos.key() == m && q0[i].cost <= score_of(sx, s0, p) + 1;
                            assert(q0[i] != item);
                            assert(queue@.contains(q0[i]));
                            let j = choose|j: int| 0 <= j < queue@.len() && queue@[j] == q0[i];
                            assert(queue@[j].pos.key() == m);
                        }
                    }
                    assert forall|i: int| 0 <= i < queue@.len() implies queue_entry_ok(sx, sy, g, s0, #[trigger] queue@[i], start.key(), id, level) by {
                        let k = choose|k: int| 0 <= k < q0.len() && q0[k] == queue@[i];
                        assert(queue_entry_ok(sx, sy, g, s0, q0[k], start.key(), id, level));
                    }
                    if in_grid(sx, sy, start.key()) && !reached(sx, s0, start.key()) {
                        let i = choose|i: int| 0 <= i < q0.len() && (#[trigger] q0[i]).pos.key() == start.key();
                        assert(q0[i] != item);
                        let j = choose|j: int| 0 <= j < queue@.len() && queue@[j] == q0[i];
                        assert(queue@[j].pos.key() == start.key());
                    }
                    if seen.len() == 0 {
                        assert forall|i: int| 0 <= i < queue@.len() implies (#[trigger] queue@[i]).cost == 0 by {
                            let k = choose|k: int| 0 <= k < q0.len() && q0[k] == queue@[i];
                            assert(q0[k].cost == 0);
                        }
                    }
                }
                continue;
            }
            // The cell is reached for the first time.
            proof {
                assert(!reached(sx, s0, item.pos.key())) by {
                    if reached(sx, s0, item.pos.key()) {
                        assert(reached_ok(sx, sy, g, s0, item.pos.key(), start.key(), id, level));
                    }
                }
            }
            self.score_grid.set(idx, item.cost);
            let ghost s1 = self.score_grid@;
            let ghost old_seen = seen;
            let ghost old_level = level;
            proof {
                seen = seen.insert(idx as int);
                level = item.cost as int;
                assert(!old_seen.contains(idx as int));
                lemma_seen_bounded(seen, sx * sy);
                let x = item.pos.key();
                assert forall|w: Seq<(int, int)>| g.is_route(w, start.key(), x, id) implies item.cost + 1 <= w.len() by {
                    assert(g.contains(w[0]));
                    if !reached(sx, s0, start.key()) {
                        assert(queued(q0, start.key()));
                        let i = choose|i: int| 0 <= i < q0.len() && (#[trigger] q0[i]).pos.key() == start.key();
                        assert(q0[i].cost == 0);
                        assert(queued_by(q0, start.key(), 0));
                    }
                    lemma_route_reaches_queue(sx, sy, g, s0, q0, start.key(), id, w, x);
                    let i = choose|i: int| 0 <= i < q0.len() && (#[trigger] q0[i]).cost + 1 <= w.len();
                    assert(item.cost <= q0[i].cost);
                }
                lemma_lower_bound_after_score(sx, sy, g, s0, s1, x, item.cost, start.key(), id);
            }
            if item.pos == end {
                proof {
                    assert forall|p: (int, int)| in_grid(sx, sy, p) && #[trigger] reached(sx, s1, p)
                        implies reached_ok(sx, sy, g, s1, p, start.key(), id, level) by {
                        lemma_cell_index(sx, sy, p);
                        if p != item.pos.key() {
                            lemma_cell_index_injective(sx, sy, p, item.pos.key());
                            assert(s1[cell_index(sx, p)] == s0[cell_index(sx, p)]);
                            assert(reached(sx, s0, p));
                            assert(reached_ok(sx, sy, g, s0, p, start.key(), id, old_level));
                            if score_of(sx, s1, p) > 0 {
                                let m = choose|m: (int, int)| in_grid(sx, sy, m) && #[trigger] adjacent(m, p)
                                    && score_of(sx, s0, m) < score_of(sx, s0, p);
                                lemma_cell_index(sx, sy, m);
                                assert(adjacent(m, p));
                            }
                        } else {
                            if item.cost > 0 {
                                let m = choose|m: (int, int)| in_grid(sx, sy, m) && #[trigger] adjacent(m, item.pos.key())
                                    && score_of(sx, s0, m) < item.cost;
                                lemma_cell_index(sx, sy, m);
                                lemma_cell_index_injective(sx, sy, m, item.pos.key());
                                assert(adjacent(m, p));
                            }
                        }
                    }
                    lemma_cell_index(sx, sy, end.key());
                }
                let r = self.backtrack(start, end, id, Ghost(g), Ghost(level));
                proof {
                    let path = choose|path: Seq<(int, int)>| g.is_route(path, start.key(), end.key(), id) && self@ == g.with_route(path, id)
                        && path.len() <= score_of(sx, s1, end.key()) + 1;
                    assert(score_of(sx, s1, end.key()) == item.cost);
                    assert forall|other: Seq<(int, int)>| g.is_route(other, start.key(), end.key(), id) implies path.len() <= other.len() by {
                        assert(g.is_route(other, start.key(), item.pos.key(), id));
                    }
                }
                return r;
            }
            let cost = item.cost + 1;
            let nbs = self.neighbors(item.pos);
            let ghost c = item.pos.key();
            let ghost q1 = queue@;
            let mut k: usize = 0;
            while k < nbs.len()
                invariant
                    self.wf(),
                    self@ == g,
                    g.wf(),
                    self.size_x == sx,
                    self.size_y == sy,
                    self.score_grid@ == s1,
                    in_grid(sx, sy, c),
                    cost == level + 1,
                    score_of(sx, s1, c) == level,
                    forall|i: int| 0 <= i < nbs@.len() ==> in_grid(sx, sy, #[trigger] nbs@[i].key()) && adjacent(c, nbs@[i].key()),
                    k <= nbs@.len(),
                    queue@.len() >= q1.len(),
                    forall|i: int| 0 <= i < q1.len() ==> queue@[i] == q1[i],
                    forall|i: int| q1.len() <= i < queue@.len() ==> (#[trigger] queue@[i]).cost == cost,
                    forall|i: int| q1.len() <= i < queue@.len() ==> in_grid(sx, sy, (#[trigger] queue@[i]).pos.key()),
                    forall|i: int| q1.len() <= i < queue@.len() ==> adjacent(c, (#[trigger] queue@[i]).pos.key()),
                    forall|i: int| q1.len() <= i < queue@.len() ==> g.passable((#[trigger] queue@[i]).pos.key(), id),
                    cost < u32::MAX || queue@.len() == q1.len(),
                    queue@.len() - q1.len() <= k,
                    forall|j: int| 0 <= j < k ==> (reached(sx, s1, #[trigger] nbs@[j].key()) || !g.passable(nbs@[j].key(), id)
                        || queued_by(queue@, nbs@[j].key(), cost as int)),
                    seen.finite(),
                    forall|j: int| #[trigger] seen.contains(j) <==> 0 <= j < sx * sy && s1[j] != u32::MAX,
                    level < seen.len(),
                    seen.len() <= sx * sy,
                decreases nbs@.len() - k,
            {
                let nb = nbs[k];
                let ghost qk = queue@;
                let nidx = match self.pos_to_idx(nb) {
                    Ok(i) => i,
                    Err(_) => 0,
                };
                proof {
                    lemma_cell_index(sx, sy, nb.key());
                    assert(in_grid(sx, sy, nb.key()));
                    assert(nidx == cell_index(sx, nb.key()));
                    assert(g.cells[nb.key()] == self.grid@[nidx as int]);
                }
                if cost < self.score_grid[nidx] && (self.grid[nidx] == GridCell::Free || self.grid[nidx] == GridCell::Occupied(id)) {
                    queue.push(QueueItem { cost, pos: nb });
                    proof {
                        let last = queue@[queue@.len() - 1];
                        assert(last.pos.key() == nb.key());
                        assert(last.cost == cost);
                        assert(queued_by(queue@, nb.key(), cost as int));
                        assert(cost < u32::MAX);
                        assert(in_grid(sx, sy, last.pos.key()));
                        assert(adjacent(c, last.pos.key()));
                        assert(g.passable(last.pos.key(), id));

                    }
                } else {
                    proof {
                        if g.passable(nb.key(), id) && !reached(sx, s1, nb.key()) {
                            assert(cost == u32::MAX);
                            lemma_seen_full(seen, sx * sy, cell_index(sx, nb.key()));
                        }
                    }
                }
                proof {
                    assert forall|j: int| 0 <= j < k + 1 implies (reached(sx, s1, #[trigger] nbs@[j].key()) || !g.passable(nbs@[j].key(), id)
                        || queued_by(queue@, nbs@[j].key(), cost as int)) by {
                        if j < k && !reached(sx, s1, nbs@[j].key()) && g.passable(nbs@[j].key(), id) {
                            assert(queued_by(qk, nbs@[j].key(), cost as int));
                            let i = choose|i: int| 0 <= i < qk.len() && (#[trigger] qk[i]).pos.key() == nbs@[j].key() && qk[i].cost <= cost;
                            assert(queue@[i] == qk[i]);
                        }
                    }
                }
                k = k + 1;
            }
            proof {
                let s2 = self.score_grid@;
                assert(s2 == s1);
                assert forall|i: int| 0 <= i < queue@.len() implies queue_entry_ok(sx, sy, g, s1, #[trigger] queue@[i], start.key(), id, level) by {
                    let e = queue@[i];
                    if i < q1.len() {
                        assert(e == q1[i]);
                        let k = choose|k: int| 0 <= k < q0.len() && q0[k] == e;
                        assert(queue_entry_ok(sx, sy, g, s0, q0[k], start.key(), id, old_level));
                        assert(item.cost <= q0[k].cost);
                        if e.cost > 0 {
                            let m = choose|m: (int, int)| in_grid(sx, sy, m) && #[trigger] adjacent(m, e.pos.key()) && score_of(sx, s0, m) < e.cost;
                            lemma_cell_index(sx, sy, m);
                            if m != c {
                                lemma_cell_index_injective(sx, sy, m, c);
                            }
                            assert(score_of(sx, s1, m) < e.cost);
                        }
                    } else {
                        assert(adjacent(c, e.pos.key()));
                        assert(adjacent(e.pos.key(), c));
                        lemma_cell_index(sx, sy, c);
                    }
                }
                assert forall|p: (int, int)| in_grid(sx, sy, p) && #[trigger] reached(sx, s1, p)
                    implies reached_ok(sx, sy, g, s1, p, start.key(), id, level) by {
                    lemma_cell_index(sx, sy, p);
                    if p != c {
                        lemma_cell_index_injective(sx, sy, p, c);
                        assert(s1[cell_index(sx, p)] == s0[cell_index(sx, p)]);
                        assert(reached(sx, s0, p));
                        assert(reached_ok(sx, sy, g, s0, p, start.key(), id, old_level));
                        if score_of(sx, s1, p) > 0 {
                            let m = choose|m: (int, int)| in_grid(sx, sy, m) && #[trigger] adjacent(m, p)
                                && score_of(sx, s0, m) < score_of(sx, s0, p);
                            lemma_cell_index(sx, sy, m);
                            if m != c {
                                lemma_cell_index_injective(sx, sy, m, c);
                            }
                            assert(adjacent(m, p));
                        }
                    } else {
                        if item.cost > 0 {
                            let m = choose|m: (int, int)| in_grid(sx, sy, m) && #[trigger] adjacent(m, c)
                                && score_of(sx, s0, m) < item.cost;
                            lemma_cell_index(sx, sy, m);
                            lemma_cell_index_injective(sx, sy, m, c);
                            assert(adjacent(m, p));
                        }
                    }
                }
                if in_grid(sx, sy, end.key()) {
                    lemma_cell_index(sx, sy, end.key());
                    lemma_cell_index_injective(sx, sy, end.key(), c);
                }
                assert forall|p: (int, int), m: (int, int)|
                    in_grid(sx, sy, p) && in_grid(sx, sy, m) && #[trigger] reached(sx, s1, p) && #[trigger] adjacent(p, m) && g.passable(m, id)
                        implies reached(sx, s1, m) || queued_by(queue@, m, score_of(sx, s1, p) + 1) by {
                    lemma_cell_index(sx, sy, p);
                    lemma_cell_index(sx, sy, m);
                    if p == c {
                        let j = choose|j: int| 0 <= j < nbs@.len() && #[trigger] nbs@[j].key() == m;
                        assert(reached(sx, s1, nbs@[j].key()) || !g.passable(nbs@[j].key(), id) || queued_by(queue@, nbs@[j].key(), cost as int));
                    } else {
                        lemma_cell_index_injective(sx, sy, p, c);
                        assert(reached(sx, s0, p));
                        if m == c {
                        } else {
                            lemma_cell_index_injective(sx, sy, m, c);
                            if !reached(sx, s0, m) {
                                let i = choose|i: int| 0 <= i < q0.len() && (#[trigger] q0[i]).pos.key() == m && q0[i].cost <= score_of(sx, s0, p) + 1;
                                assert(q0[i] != item);
                                assert(q1.contains(q0[i]));
                                let j = choose|j: int| 0 <= j < q1.len() && q1[j] == q0[i];
                                assert(queue@[j] == q1[j]);
                                assert(queue@[j].pos.key() == m);
                            }
                        }
                    }
                }
                if in_grid(sx, sy, start.key()) {
                    lemma_cell_index(sx, sy, start.key());
                    if start.key() != c {
                        lemma_cell_index_injective(sx, sy, start.key(), c);
                        if !reached(sx, s0, start.key()) {
                            let i = choose|i: int| 0 <= i < q0.len() && (#[trigger] q0[i]).pos.key() == start.key();
                            assert(q0[i] != item);
                            assert(q1.contains(q0[i]));
                            let j = choose|j: int| 0 <= j < q1.len() && q1[j] == q0[i];
                            assert(queue@[j] == q1[j]);
                            assert(queue@[j].pos.key() == start.key());
                        }
                    }
                }
                if old_seen.len() == 0 {
                    assert(item.cost == 0);
                } else {
                    assert(item.cost <= old_level + 1);
                }
                assert(seen.len() == old_seen.len() + 1);
            }
        }
        proof {
            assert(in_grid(sx, sy, start.key()));
            assert(reached(sx, self.score_grid@, start.key())) by {
                if !reached(sx, self.score_grid@, start.key()) {
                    assert(queued(queue@, start.key()));
                    let i = choose|i: int| 0 <= i < queue@.len() && (#[trigger] queue@[i]).pos.key() == start.key();
                }
            }
            if g.routable(start.key(), end.key(), id) {
                let path = choose|path: Seq<(int, int)>| g.is_route(path, start.key(), end.key(), id);
                assert forall|p: (int, int), m: (int, int)|
                    in_grid(sx, sy, p) && in_grid(sx, sy, m) && #[trigger] reached(sx, self.score_grid@, p) && #[trigger] adjacent(p, m) && g.passable(m, id)
                        implies reached(sx, self.score_grid@, m) by {
                    if !reached(sx, self.score_grid@, m) {
                        assert(queued_by(queue@, m, score_of(sx, self.score_grid@, p) + 1));
                        let i = choose|i: int| 0 <= i < queue@.len() && (#[trigger] queue@[i]).pos.key() == m;
                    }
                }
                lemma_route_all_reached(sx, sy, g, self.score_grid@, path, start.key(), end.key(), id, path.len() - 1);
                assert(g.contains(path[path.len() - 1]));
            }
        }
        Err(RoutingError::Unroutable)
    }
}

/// Read after write: once a cell is marked for `id`, it reads back as occupied by `id`.
pub proof fn lemma_mark_then_read(v: Router2DView, p: (int, int), id: RouteId)
    requires
        v.wf(),
        v.contains(p),
    ensures
        (Router2DView { cells: v.cells.insert(p, GridCell::Occupied(id)), ..v }).cells[p] == GridCell::Occupied(id),
        forall|q: (int, int)| v.contains(q) && q != p ==> (Router2DView { cells: v.cells.insert(p, GridCell::Occupied(id)), ..v }).cells[q] == v.cells[q],
{
}

/// A routed path connects its endpoints: both end up occupied by the route.
pub proof fn lemma_route_marks_endpoints(v: Router2DView, path: Seq<(int, int)>, start: (int, int), end: (int, int), id: RouteId)
    requires
        v.wf(),
        v.is_route(path, start, end, id),
    ensures
        v.with_route(path, id).cells[start] == GridCell::Occupied(id),
        v.with_route(path, id).cells[end] == GridCell::Occupied(id),
        forall|i: int| 0 <= i < path.len() ==> v.with_route(path, id).cells[#[trigger] path[i]] == GridCell::Occupied(id),
{
    assert(path.contains(path[0]));
    assert(path.contains(path[path.len() - 1]));
    assert(v.contains(path[0]));
    assert(v.contains(path[path.len() - 1]));
    assert forall|i: int| 0 <= i < path.len() implies v.with_route(path, id).cells[#[trigger] path[i]] == GridCell::Occupied(id) by {
        assert(path.contains(path[i]));
        assert(v.contains(path[i]));
    }
}

/// Routing never takes a cell held by another route, except the start cell itself.
pub proof fn lemma_route_keeps_other_routes(v: Router2DView, path: Seq<(int, int)>, start: (int, int), end: (int, int), id: RouteId, p: (int, int), other: RouteId)
    requires
        v.wf(),
        v.is_route(path, start, end, id),
        v.contains(p),
        p != start,
        other != id,
        v.cells[p] == GridCell::Occupied(other),
    ensures
        v.with_route(path, id).cells[p] == GridCell::Occupied(other),
{
    if path.contains(p) {
        let i = choose|i: int| 0 <= i < path.len() && path[i] == p;
        assert(i != 0);
        assert(v.passable(path[i], id));
    }
}

/// Ripping up a route just laid gives the same grid as ripping up the route alone.
pub proof fn lemma_rip_up_after_route(v: Router2DView, path: Seq<(int, int)>, id: RouteId)
    requires
        v.wf(),
    ensures
        forall|p: (int, int)| v.contains(p) ==> #[trigger] v.with_route(path, id).without_route(id).cells[p]
            == (if path.contains(p) { GridCell::Free } else { v.without_route(id).cells[p] }),
{
}

/// A router's view is well formed.
pub proof fn lemma_router_view_wf(r: &Router2D)
    requires
        r.wf(),
    ensures
        r@.wf(),
{
}

} // verus!
