//! The integer side of building placement cells: structure footprints, fixed cell positions,
//! and the legalized form of a placed cell.

use vstd::prelude::*;

use crate::cell_params::{assoc_get, assoc_lookup, CellExt, CellGetAttribError, ParamLookup};
use crate::structure_cache::Structure;
use crate::yosys::Cell;
use crate::BLOCKS_PER_TIER;

verus! {

/// Cell post-legalization.
#[derive(Debug, Clone, Copy, PartialEq, Eq, Structural)]
pub struct LegalizedCell {
    /// Position on the X axis, in blocks.
    pub x: u32,
    /// Position on the Y axis, in tiers.
    pub tier_y: u32,
    /// Position on the Z axis, in blocks.
    pub z: u32,
    /// Size along the X axis, in blocks.
    pub sx: u32,
    /// Size along the Y axis, in tiers.
    pub s_tier_y: u32,
    /// Size along the Z axis, in blocks.
    pub sz: u32,
}

/// The size of a cell structure, in blocks.
#[derive(Debug, Clone, Copy, PartialEq, Eq, Structural)]
pub struct PlacementStructureData {
    /// X size, in blocks.
    pub sx: u32,
    /// Y size, in blocks.
    pub sy: u32,
    /// Z size, in blocks.
    pub sz: u32,
}

/// The smallest value of axis `a` over the block positions `ps`, and 0.
pub open spec fn low_corner(ps: Seq<[i32; 3]>, a: int) -> int
    decreases ps.len(),
{
    if ps.len() == 0 {
        0
    } else {
        let l = low_corner(ps.drop_last(), a);
        if ps.last()@[a] < l { ps.last()@[a] as int } else { l }
    }
}

/// The largest value of axis `a` over the block positions `ps`, and 0.
pub open spec fn high_corner(ps: Seq<[i32; 3]>, a: int) -> int
    decreases ps.len(),
{
    if ps.len() == 0 {
        0
    } else {
        let h = high_corner(ps.drop_last(), a);
        if ps.last()@[a] > h { ps.last()@[a] as int } else { h }
    }
}

/// The positions of the blocks of structure `s`.
pub open spec fn block_positions(s: Structure) -> Seq<[i32; 3]> {
    s.blocks@.map_values(|b: crate::structure_cache::StructureBlock| b.pos)
}

proof fn lemma_corners_bounded(ps: Seq<[i32; 3]>, a: int)
    requires
        0 <= a < 3,
    ensures
        i32::MIN <= low_corner(ps, a) <= 0 <= high_corner(ps, a) <= i32::MAX,
    decreases ps.len(),
{
    if ps.len() > 0 {
        lemma_corners_bounded(ps.drop_last(), a);
    }
}

impl PlacementStructureData {
    /// The extent of structure `s` along each axis: the distance from the lowest to the
    /// highest block position, the origin counted in.
    pub fn of_structure(s: &Structure) -> (r: PlacementStructureData)
        ensures
            r.sx == high_corner(block_positions(*s), 0) - low_corner(block_positions(*s), 0),
            r.sy == high_corner(block_positions(*s), 1) - low_corner(block_positions(*s), 1),
            r.sz == high_corner(block_positions(*s), 2) - low_corner(block_positions(*s), 2),
    {
        let ghost ps = block_positions(*s);
        let mut lo: [i32; 3] = [0, 0, 0];
        let mut hi: [i32; 3] = [0, 0, 0];
        let n = s.blocks.len();
        let mut i: usize = 0;
        proof {
            assert(ps.take(0) =~= Seq::<[i32; 3]>::empty());
        }
        while i < n
            invariant
                n == s.blocks@.len(),
                ps == block_positions(*s),
                i <= n,
                forall|a: int| 0 <= a < 3 ==> lo@[a] == low_corner(#[trigger] ps.take(i as int), a),
                forall|a: int| 0 <= a < 3 ==> hi@[a] == high_corner(#[trigger] ps.take(i as int), a),
            decreases n - i,
        {
            proof {
                assert(ps.take(i + 1).drop_last() =~= ps.take(i as int));
                assert(ps.take(i + 1).last() == s.blocks@[i as int].pos);
            }
            let p = s.blocks[i].pos;
            let mut a: usize = 0;
            while a < 3
                invariant
                    n == ps.len(),
                    i < n,
                    a <= 3,
                    p == ps.take(i + 1).last(),
                    forall|b: int| 0 <= b < a ==> lo@[b] == low_corner(#[trigger] ps.take(i + 1), b),
                    forall|b: int| 0 <= b < a ==> hi@[b] == high_corner(#[trigger] ps.take(i + 1), b),
                    forall|b: int| a <= b < 3 ==> lo@[b] == low_corner(#[trigger] ps.take(i as int), b),
                    forall|b: int| a <= b < 3 ==> hi@[b] == high_corner(#[trigger] ps.take(i as int), b),
                    ps.take(i + 1).drop_last() == ps.take(i as int),
                decreases 3 - a,
            {
                if p[a] < lo[a] {
                    lo[a] = p[a];
                }
                if p[a] > hi[a] {
                    hi[a] = p[a];
                }
                a = a + 1;
            }
            i = i + 1;
        }
        proof {
            assert(ps.take(n as int) =~= ps);
            lemma_corners_bounded(ps, 0);
            lemma_corners_bounded(ps, 1);
            lemma_corners_bounded(ps, 2);
        }
        let sx = (hi[0] as i64 - lo[0] as i64) as u32;
        let sy = (hi[1] as i64 - lo[1] as i64) as u32;
        let sz = (hi[2] as i64 - lo[2] as i64) as u32;
        PlacementStructureData { sx, sy, sz }
    }

    /// The footprint of a cell of this structure: its X and Z sizes rounded up to even, and its
    /// height in whole tiers.
    pub fn footprint(&self) -> (r: (u32, u32, u32))
        requires
            self.sx < u32::MAX,
            self.sz < u32::MAX,
            self.sy + BLOCKS_PER_TIER - 1 <= u32::MAX,
        ensures
            r.0 == self.sx + self.sx % 2,
            r.1 == (self.sy + BLOCKS_PER_TIER - 1) / (BLOCKS_PER_TIER as int),
            r.2 == self.sz + self.sz % 2,
    {
        (self.sx + self.sx % 2, (self.sy + (BLOCKS_PER_TIER - 1)) / BLOCKS_PER_TIER, self.sz + self.sz % 2)
    }
}

/// Caches the sizes of cell structures by name, so that each structure file is read once.
pub struct CellFactory {
    /// The directory that structure files are read from.
    pub structure_directory: String,
    /// The sizes of the structures read so far, by name.
    pub structure_cache: Vec<(String, PlacementStructureData)>,
}

impl CellFactory {
    /// A factory reading from `structure_directory`, with nothing read yet.
    pub fn new(structure_directory: String) -> (r: CellFactory)
        ensures
            r.structure_directory == structure_directory,
            r.structure_cache@.len() == 0,
    {
        CellFactory { structure_directory, structure_cache: Vec::new() }
    }

    /// The size of structure `name`, if it was read already.
    pub fn cached(&self, name: &str) -> (r: Option<PlacementStructureData>)
        ensures
            r == assoc_lookup(self.structure_cache@, name@),
    {
        match assoc_get(&self.structure_cache, name) {
            Some(d) => Some(*d),
            None => None,
        }
    }

    /// Records the size of structure `name` (read after [`CellFactory::cached`] found nothing),
    /// and returns it.
    pub fn remember(&mut self, name: &str, data: PlacementStructureData) -> (r: PlacementStructureData)
        ensures
            r == data,
            final(self).structure_directory == old(self).structure_directory,
            final(self).structure_cache@.len() == old(self).structure_cache@.len() + 1,
            final(self).structure_cache@.last().0@ == name@,
            final(self).structure_cache@.last().1 == data,
            final(self).structure_cache@.drop_last() == old(self).structure_cache@,
    {
        self.structure_cache.push((name.to_string(), data));
        proof {
            assert(self.structure_cache@.drop_last() =~= old(self).structure_cache@);
        }
        data
    }
}

/// Why the fixed position of a cell could not be read.
#[derive(Debug)]
pub enum CellPosError {
    /// The parameter is there but is not a number.
    Param(CellGetAttribError),
    /// The parameter is a number that is not a `u32`.
    OutOfRange(i64),
}

/// The coordinate that parameter lookup `l` gives, a missing parameter giving 0.
pub open spec fn coordinate_of(l: ParamLookup) -> Option<u32> {
    match l {
        ParamLookup::Missing => Some(0),
        ParamLookup::Unparsable => None,
        ParamLookup::Value(v) => if 0 <= v <= u32::MAX { Some(v as u32) } else { None },
    }
}

/// `r` is what reading a coordinate with lookup `l` gives.
pub open spec fn reads_coordinate(r: Result<u32, CellPosError>, l: ParamLookup) -> bool {
    match l {
        ParamLookup::Missing => r == Ok::<u32, CellPosError>(0),
        ParamLookup::Unparsable => r matches Err(CellPosError::Param(CellGetAttribError::ParseFailed(_))),
        ParamLookup::Value(v) => if 0 <= v <= u32::MAX {
            r == Ok::<u32, CellPosError>(v as u32)
        } else {
            r matches Err(CellPosError::OutOfRange(w)) && w == v
        },
    }
}

/// Reads coordinate parameter `name` of `cell`: 0 when missing, else a `u32`.
fn get_u32_param(cell: &Cell, name: &str) -> (r: Result<u32, CellPosError>)
    ensures
        reads_coordinate(r, cell.param_lookup(name@)),
{
    match cell.get_param_i64_with_default(name, 0) {
        Err(e) => Err(CellPosError::Param(e)),
        Ok(v) => if 0 <= v && v <= u32::MAX as i64 {
            Ok(v as u32)
        } else {
            Err(CellPosError::OutOfRange(v))
        },
    }
}

/// The fixed position of an IO cell, from its `POS_X`, `POS_Y` and `POS_Z` parameters (each 0
/// when missing); the first that cannot be read gives the error.
pub fn get_cell_pos(cell: &Cell) -> (r: Result<(u32, u32, u32), CellPosError>)
    ensures
        match (coordinate_of(cell.param_lookup("POS_X"@)), coordinate_of(cell.param_lookup("POS_Y"@)),
            coordinate_of(cell.param_lookup("POS_Z"@))) {
            (Some(x), Some(y), Some(z)) => r == Ok::<(u32, u32, u32), CellPosError>((x, y, z)),
            (None, _, _) => r is Err && reads_coordinate(Err(r->Err_0), cell.param_lookup("POS_X"@)),
            (Some(_), None, _) => r is Err && reads_coordinate(Err(r->Err_0), cell.param_lookup("POS_Y"@)),
            (Some(_), Some(_), None) => r is Err && reads_coordinate(Err(r->Err_0), cell.param_lookup("POS_Z"@)),
        },
{
    let x = match get_u32_param(cell, "POS_X") {
        Ok(v) => v,
        Err(e) => return Err(e),
    };
    let y = match get_u32_param(cell, "POS_Y") {
        Ok(v) => v,
        Err(e) => return Err(e),
    };
    let z = match get_u32_param(cell, "POS_Z") {
        Ok(v) => v,
        Err(e) => return Err(e),
    };
    Ok((x, y, z))
}

} // verus!
