//! The integer bookkeeping of the TETRIS legalizer: for every (tier, Z row) pair, the leftmost
//! X coordinate that nothing legalized so far occupies.

use vstd::prelude::*;

use crate::BLOCKS_PER_Z_ROW;

verus! {

/// The TETRIS legalizer.
pub struct TetrisLegalizer {
    /// The "left limit" from the TETRIS paper. Represents how far left of the original X
    /// location of the cell we're allowed to insert.
    left_limit: u32,
}

impl TetrisLegalizer {
    /// The legalizer's left limit.
    pub closed spec fn spec_left_limit(&self) -> u32 {
        self.left_limit
    }

    /// A legalizer with left limit `left_limit`.
    pub fn new(left_limit: u32) -> (r: TetrisLegalizer)
        ensures
            r.spec_left_limit() == left_limit,
    {
        TetrisLegalizer { left_limit }
    }

    /// The legalizer's left limit.
    pub fn left_limit(&self) -> (r: u32)
        ensures
            r == self.spec_left_limit(),
    {
        self.left_limit
    }
}

/// Where in a row whose free space starts at `row_min` a cell placed at `x` goes: at `x`
/// itself when the free space starts more than `left_limit` to the left of it, else at the
/// start of the free space.
pub open spec fn candidate_x(row_min: u32, x: u32, left_limit: u32) -> u32 {
    if x > left_limit && row_min < x - left_limit {
        x
    } else {
        row_min
    }
}

/// The position a cell at `x`, `sx` wide, takes in row `i`, if it fits within `size_x`.
pub open spec fn row_candidate(min_x: Seq<u32>, max_y: u32, i: int, x: u32, sx: u32, left_limit: u32, size_x: u32) -> Option<(u32, u32, u32)> {
    let cx = candidate_x(min_x[i], x, left_limit);
    if cx + sx <= size_x {
        Some((cx, (i % (max_y as int)) as u32, ((i / (max_y as int)) * BLOCKS_PER_Z_ROW) as u32))
    } else {
        None
    }
}

/// For every (tier, Z row) pair of the placement region, the leftmost free X coordinate.
pub struct TetrisRows {
    /// The number of tiers of the region.
    pub max_y: u32,
    /// The leftmost free X coordinate of each row; row `y + z_row * max_y` is tier `y`, Z row
    /// `z_row`.
    pub min_x: Vec<u32>,
}

proof fn lemma_row_z_fits(i: int, max_y: int, size_z: int)
    requires
        0 < max_y,
        0 <= size_z,
        0 <= i < (max_y * size_z) / 6,
    ensures
        0 <= (i / max_y) * 6 <= size_z,
{
    assert(i < max_y * (size_z / 6) + max_y) by (nonlinear_arith)
        requires 0 < max_y, 0 <= size_z, 0 <= i < (max_y * size_z) / 6;
    assert(0 <= i / max_y <= size_z / 6) by (nonlinear_arith)
        requires 0 < max_y, 0 <= size_z, 0 <= i < max_y * (size_z / 6) + max_y;
    assert(0 <= (i / max_y) * 6 <= size_z) by (nonlinear_arith)
        requires 0 <= i / max_y <= size_z / 6, 0 <= size_z;
}

impl TetrisRows {
    /// The rows are those of a region `max_y` tiers high and `size_z` blocks deep.
    pub open spec fn wf(&self, size_z: u32) -> bool {
        &&& self.min_x@.len() == (self.max_y * size_z) / (BLOCKS_PER_Z_ROW as int)
        &&& self.max_y * size_z <= u32::MAX
    }

    /// All rows of a region `size_y` tiers high and `size_z` blocks deep, all free from X 0.
    pub fn new(size_y: u32, size_z: u32) -> (r: TetrisRows)
        requires
            size_y * size_z <= u32::MAX,
        ensures
            r.wf(size_z),
            r.max_y == size_y,
            forall|i: int| 0 <= i < r.min_x@.len() ==> r.min_x@[i] == 0,
    {
        let n = size_y * size_z / BLOCKS_PER_Z_ROW;
        let mut min_x: Vec<u32> = Vec::new();
        let mut i: u32 = 0;
        while i < n
            invariant
                i <= n,
                min_x@.len() == i,
                forall|j: int| 0 <= j < i ==> min_x@[j] == 0,
            decreases n - i,
        {
            min_x.push(0);
            i = i + 1;
        }
        TetrisRows { max_y: size_y, min_x }
    }

    /// For each row, in order, the position a cell placed at `x`, `sx` wide, would take there,
    /// or `None` where it would stick out past `size_x`.
    pub fn candidates(&self, size_z: u32, x: u32, sx: u32, left_limit: u32, size_x: u32) -> (r: Vec<Option<(u32, u32, u32)>>)
        requires
            self.wf(size_z),
        ensures
            r@.len() == self.min_x@.len(),
            forall|i: int| 0 <= i < r@.len() ==> #[trigger] r@[i] == row_candidate(self.min_x@, self.max_y, i, x, sx, left_limit, size_x),
    {
        let n = self.min_x.len();
        let mut out: Vec<Option<(u32, u32, u32)>> = Vec::new();
        let mut i: usize = 0;
        while i < n
            invariant
                n == self.min_x@.len(),
                self.wf(size_z),
                i <= n,
                out@.len() == i,
                forall|j: int| 0 <= j < i ==> #[trigger] out@[j] == row_candidate(self.min_x@, self.max_y, j, x, sx, left_limit, size_x),
            decreases n - i,
        {
            let row_min = self.min_x[i];
            let cx = if x > left_limit && row_min < x - left_limit { x } else { row_min };
            if (cx as u64) + (sx as u64) <= size_x as u64 {
                proof {
                    assert(self.max_y > 0) by (nonlinear_arith)
                        requires self.min_x@.len() == (self.max_y * size_z) / 6, i < self.min_x@.len();
                    lemma_row_z_fits(i as int, self.max_y as int, size_z as int);
                }
                let y = (i as u32) % self.max_y;
                let z_row = (i as u32) / self.max_y;
                out.push(Some((cx, y, z_row * BLOCKS_PER_Z_ROW)));
            } else {
                out.push(None);
            }
            i = i + 1;
        }
        out
    }

    /// The row of tier `tier_y` holding Z coordinate `z`, if the region has it.
    pub fn row_of(&self, tier_y: u32, z: u32) -> (r: Option<usize>)
        ensures
            ({
                let k = tier_y + (z / BLOCKS_PER_Z_ROW) * self.max_y;
                match r {
                    Some(i) => i == k && k < self.min_x@.len(),
                    None => k >= self.min_x@.len(),
                }
            }),
    {
        let zr: u64 = (z / BLOCKS_PER_Z_ROW) as u64;
        let my: u64 = self.max_y as u64;
        proof {
            assert(zr * my <= u32::MAX * u32::MAX) by (nonlinear_arith)
                requires zr <= u32::MAX, my <= u32::MAX;
        }
        let k: u64 = tier_y as u64 + zr * my;
        if k < self.min_x.len() as u64 {
            Some(k as usize)
        } else {
            None
        }
    }

    /// Marks row `row` as occupied up to `x_end`: its free space now starts there.
    pub fn occupy(&mut self, row: usize, x_end: u32)
        requires
            row < old(self).min_x@.len(),
        ensures
            final(self).max_y == old(self).max_y,
            final(self).min_x@ == old(self).min_x@.update(row as int, x_end),
    {
        self.min_x.set(row, x_end);
    }
}

} // verus!
