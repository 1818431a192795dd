//! Storage for blocks laid out on a 3D grid, with a palette of block types.

use vstd::prelude::*;

use crate::text::str_eq;
use vstd::string::StringExecFns;

verus! {

/// The six axis directions of the block grid.
#[derive(Clone, Copy, Debug, PartialEq, Eq, Structural)]
pub enum Direction {
    /// Z-
    North,
    /// Z+
    South,
    /// X+
    East,
    /// X-
    West,
    /// +Y
    Up,
    /// -Y
    Down,
}

/// The direction pointing the other way along the same axis.
pub open spec fn spec_mirror(d: Direction) -> Direction {
    match d {
        Direction::North => Direction::South,
        Direction::South => Direction::North,
        Direction::East => Direction::West,
        Direction::West => Direction::East,
        Direction::Up => Direction::Down,
        Direction::Down => Direction::Up,
    }
}

impl Direction {
    /// The opposite direction.
    pub fn mirror(self) -> (r: Direction)
        ensures
            r == spec_mirror(self),
    {
        match self {
            Direction::North => Direction::South,
            Direction::South => Direction::North,
            Direction::East => Direction::West,
            Direction::West => Direction::East,
            Direction::Up => Direction::Down,
            Direction::Down => Direction::Up,
        }
    }
}

/// Mirroring twice gives back the direction, and never gives the same direction.
pub proof fn lemma_mirror_involution(d: Direction)
    ensures
        spec_mirror(spec_mirror(d)) == d,
        spec_mirror(d) != d,
{
}


/// The four directions within a horizontal plane.
pub fn planar_directions() -> (r: [Direction; 4])
    ensures
        r@ == seq![Direction::North, Direction::South, Direction::East, Direction::West],
{
    [Direction::North, Direction::South, Direction::East, Direction::West]
}

/// All six directions.
pub fn all_directions() -> (r: [Direction; 6])
    ensures
        r@ == spec_all_directions(),
{
    [Direction::North, Direction::South, Direction::East, Direction::West, Direction::Up, Direction::Down]
}

/// The six directions, in the order in which the routers consider them.
pub open spec fn spec_all_directions() -> Seq<Direction> {
    seq![Direction::North, Direction::South, Direction::East, Direction::West, Direction::Up, Direction::Down]
}

/// Unit step along each axis taken by a direction, as (dx, dy, dz).
pub open spec fn direction_delta(d: Direction) -> (int, int, int) {
    match d {
        Direction::North => (0, 0, -1),
        Direction::South => (0, 0, 1),
        Direction::East => (1, 0, 0),
        Direction::West => (-1, 0, 0),
        Direction::Up => (0, 1, 0),
        Direction::Down => (0, -1, 0),
    }
}

/// A block position in the world.
#[derive(Clone, Copy, Debug, PartialEq, Eq, Structural)]
pub struct Position {
    pub x: i32,
    pub y: i32,
    pub z: i32,
}

/// A coordinate triple with each coordinate inside the range of `i32`.
pub open spec fn fits_i32(x: int, y: int, z: int) -> bool {
    i32::MIN <= x <= i32::MAX && i32::MIN <= y <= i32::MAX && i32::MIN <= z <= i32::MAX
}

impl Position {
    pub fn new(x: i32, y: i32, z: i32) -> (r: Position)
        ensures
            r == (Position { x, y, z }),
    {
        Position { x, y, z }
    }

    /// Whether the position lies in the half-open box `[min, max)`.
    pub fn in_bounding_box(&self, min: &Position, max: &Position) -> (r: bool)
        ensures
            r == (min.x <= self.x < max.x && min.y <= self.y < max.y && min.z <= self.z < max.z),
    {
        let x = min.x <= self.x && self.x < max.x;
        let y = min.y <= self.y && self.y < max.y;
        let z = min.z <= self.z && self.z < max.z;
        x && y && z
    }

    /// The position moved by one block in direction `d` (coordinates as mathematical integers).
    pub open spec fn spec_offset(self, d: Direction) -> (int, int, int) {
        let (dx, dy, dz) = direction_delta(d);
        (self.x + dx, self.y + dy, self.z + dz)
    }

    /// Whether moving one block in direction `d` stays inside the range of `i32`.
    pub open spec fn can_offset(self, d: Direction) -> bool {
        let (x, y, z) = self.spec_offset(d);
        fits_i32(x, y, z)
    }

    /// The neighbouring position one block away in direction `d`.
    pub fn offset(&self, d: Direction) -> (r: Position)
        requires
            self.can_offset(d),
        ensures
            (r.x as int, r.y as int, r.z as int) == self.spec_offset(d),
    {
        match d {
            Direction::North => Position::new(self.x, self.y, self.z - 1),
            Direction::South => Position::new(self.x, self.y, self.z + 1),
            Direction::East => Position::new(self.x + 1, self.y, self.z),
            Direction::West => Position::new(self.x - 1, self.y, self.z),
            Direction::Up => Position::new(self.x, self.y + 1, self.z),
            Direction::Down => Position::new(self.x, self.y - 1, self.z),
        }
    }
}

/// Stepping in a direction and then in its mirror returns to the starting position.
pub proof fn lemma_offset_mirror_returns(p: Position, d: Direction)
    requires
        p.can_offset(d),
    ensures
        ({
            let (x, y, z) = p.spec_offset(d);
            let q = Position { x: x as i32, y: y as i32, z: z as i32 };
            q.can_offset(spec_mirror(d)) && q.spec_offset(spec_mirror(d)) == (p.x as int, p.y as int, p.z as int)
        }),
{
}


/// The value of a block property.
#[derive(Debug)]
pub enum PropertyValue {
    String(String),
    Byte(i8),
}

/// The mathematical value of a [`PropertyValue`].
pub enum PropertyValueView {
    String(Seq<char>),
    Byte(i8),
}

impl View for PropertyValue {
    type V = PropertyValueView;

    open spec fn view(&self) -> PropertyValueView {
        match self {
            PropertyValue::String(s) => PropertyValueView::String(s@),
            PropertyValue::Byte(b) => PropertyValueView::Byte(*b),
        }
    }
}

impl PropertyValue {
    /// Whether two property values are the same.
    pub fn same_as(&self, other: &PropertyValue) -> (r: bool)
        ensures
            r == (self@ == other@),
    {
        match self {
            PropertyValue::String(a) => match other {
                PropertyValue::String(b) => *a == *b,
                PropertyValue::Byte(_) => false,
            },
            PropertyValue::Byte(a) => match other {
                PropertyValue::String(_) => false,
                PropertyValue::Byte(b) => *a == *b,
            },
        }
    }

    /// A copy of this value.
    pub fn duplicate(&self) -> (r: PropertyValue)
        ensures
            r@ == self@,
    {
        match self {
            PropertyValue::String(s) => PropertyValue::String(s.clone()),
            PropertyValue::Byte(b) => PropertyValue::Byte(*b),
        }
    }
}

/// A block type: a name such as `minecraft:air` and an optional property table.
///
/// The property table is a list of `(key, value)` entries; keys must be distinct (see
/// [`Block::wf`]), so the table stands for a map and its order does not matter.
#[derive(Debug)]
pub struct Block {
    pub name: String,
    pub properties: Option<Vec<(String, PropertyValue)>>,
}

/// The mathematical value of a [`Block`]: its name, and its properties as a set of entries.
pub struct BlockView {
    pub name: Seq<char>,
    pub properties: Option<Set<(Seq<char>, PropertyValueView)>>,
}

/// The view of a property table entry.
pub open spec fn entry_view(e: (String, PropertyValue)) -> (Seq<char>, PropertyValueView) {
    (e.0@, e.1@)
}

/// The entries of a property table, as a set of views.
pub open spec fn entries_view(ps: Seq<(String, PropertyValue)>) -> Set<(Seq<char>, PropertyValueView)> {
    ps.map_values(|e: (String, PropertyValue)| entry_view(e)).to_set()
}

/// No two entries of a property table share a key.
pub open spec fn keys_distinct(ps: Seq<(String, PropertyValue)>) -> bool {
    forall|i: int, j: int| 0 <= i < ps.len() && 0 <= j < ps.len() && i != j ==> ps[i].0@ != ps[j].0@
}

impl View for Block {
    type V = BlockView;

    open spec fn view(&self) -> BlockView {
        BlockView {
            name: self.name@,
            properties: match self.properties {
                Some(ps) => Some(entries_view(ps@)),
                None => None,
            },
        }
    }
}

/// The value stored under `key` in a property table, if any.
pub open spec fn property_lookup(ps: Seq<(String, PropertyValue)>, key: Seq<char>) -> Option<PropertyValueView> {
    if exists|i: int| 0 <= i < ps.len() && ps[i].0@ == key {
        let i = choose|i: int| 0 <= i < ps.len() && ps[i].0@ == key;
        Some(ps[i].1@)
    } else {
        None
    }
}

/// The value stored under `key` in a set of property entries, if any.
pub open spec fn props_lookup(s: Set<(Seq<char>, PropertyValueView)>, key: Seq<char>) -> Option<PropertyValueView> {
    if exists|v: PropertyValueView| s.contains((key, v)) {
        Some(choose|v: PropertyValueView| s.contains((key, v)))
    } else {
        None
    }
}

/// The value of property `key` of a block type, if it has one.
pub open spec fn view_property(b: BlockView, key: Seq<char>) -> Option<PropertyValueView> {
    match b.properties {
        Some(s) => props_lookup(s, key),
        None => None,
    }
}

proof fn lemma_props_lookup(ps: Seq<(String, PropertyValue)>, key: Seq<char>)
    requires
        keys_distinct(ps),
    ensures
        forall|i: int| 0 <= i < ps.len() && ps[i].0@ == key ==> props_lookup(entries_view(ps), key) == Some(#[trigger] ps[i].1@),
        (forall|i: int| 0 <= i < ps.len() ==> ps[i].0@ != key) ==> props_lookup(entries_view(ps), key) is None,
{
    let vs = ps.map_values(|e: (String, PropertyValue)| entry_view(e));
    let s = entries_view(ps);
    assert forall|v: PropertyValueView| #[trigger] s.contains((key, v)) implies exists|j: int| 0 <= j < ps.len() && ps[j].0@ == key && ps[j].1@ == v by {
        assert(vs.contains((key, v)));
        let j = choose|j: int| 0 <= j < vs.len() && vs[j] == (key, v);
        assert(vs[j] == entry_view(ps[j]));
    }
    assert forall|i: int| 0 <= i < ps.len() && ps[i].0@ == key implies props_lookup(s, key) == Some(#[trigger] ps[i].1@) by {
        assert(vs[i] == (key, ps[i].1@));
        assert(vs.contains((key, ps[i].1@)));
        assert(s.contains((key, ps[i].1@)));
        let v = choose|v: PropertyValueView| s.contains((key, v));
        let j = choose|j: int| 0 <= j < ps.len() && ps[j].0@ == key && ps[j].1@ == v;
        assert(i == j);
    }
}

proof fn lemma_entries_len(ps: Seq<(String, PropertyValue)>)
    requires
        keys_distinct(ps),
    ensures
        entries_view(ps).len() == ps.len(),
        entries_view(ps).finite(),
{
    let vs = ps.map_values(|e: (String, PropertyValue)| entry_view(e));
    assert(vs.no_duplicates()) by {
        assert forall|i: int, j: int| 0 <= i < vs.len() && 0 <= j < vs.len() && i != j implies vs[i] != vs[j] by {
            assert(ps[i].0@ != ps[j].0@);
        }
    }
    vs.unique_seq_to_set();
    vstd::seq_lib::seq_to_set_is_finite(vs);
}

impl Block {
    /// A block with the given name and no properties.
    pub fn new(name: String) -> (r: Block)
        ensures
            r.name@ == name@,
            r.properties.is_none(),
            r.wf(),
    {
        Block { name, properties: None }
    }

    /// The property table has no repeated key.
    pub open spec fn wf(&self) -> bool {
        match self.properties {
            Some(ps) => keys_distinct(ps@),
            None => true,
        }
    }

    /// Whether this is a block that drags neighbours along when pushed.
    pub fn is_sticky(&self) -> (r: bool)
        ensures
            r == (self.name@ == "minecraft:honey_block"@ || self.name@ == "minecraft:slime_block"@),
    {
        str_eq(self.name.as_str(), "minecraft:honey_block") || str_eq(self.name.as_str(), "minecraft:slime_block")
    }

    /// Whether a piston can push this block.
    pub fn is_pushable(&self) -> (r: bool)
        ensures
            r == !(self.name@ == "minecraft:air"@ || self.name@ == "minecraft:obsidian"@
                || self.name@ == "minecraft:bedrock"@),
    {
        !(str_eq(self.name.as_str(), "minecraft:air") || str_eq(self.name.as_str(), "minecraft:obsidian")
            || str_eq(self.name.as_str(), "minecraft:bedrock"))
    }

    /// The value of property `key`, if the block has one.
    #[verifier::loop_isolation(false)]
    pub fn property(&self, key: &str) -> (r: Option<&PropertyValue>)
        ensures
            self.properties is None ==> r is None,
            r is None && self.properties is Some ==> forall|i: int|
                0 <= i < self.properties.unwrap()@.len() ==> self.properties.unwrap()@[i].0@ != key@,
            r matches Some(v) ==> self.properties is Some && exists|i: int|
                0 <= i < self.properties.unwrap()@.len() && self.properties.unwrap()@[i].0@ == key@
                    && self.properties.unwrap()@[i].1 == *v,
            self.wf() ==> (r matches Some(v) ==> property_lookup(self.properties.unwrap()@, key@) == Some(v@)),
            self.wf() && self.properties is Some ==> (r is None <==> property_lookup(self.properties.unwrap()@, key@) is None),
            self.wf() ==> match r {
                Some(v) => view_property(self@, key@) == Some(v@),
                None => view_property(self@, key@) is None,
            },
    {
        match &self.properties {
            None => None,
            Some(ps) => {
                let n = ps.len();
                let mut i: usize = 0;
                while i < n
                    invariant
                        n == ps@.len(),
                        i <= n,
                        forall|j: int| 0 <= j < i ==> ps@[j].0@ != key@,
                    decreases n - i,
                {
                    if str_eq(ps[i].0.as_str(), key) {
                        proof {
                            assert(ps@[i as int].0@ == key@);
                            if keys_distinct(ps@) {
                                lemma_props_lookup(ps@, key@);
                            }
                            if keys_distinct(ps@) {
                                let k = choose|k: int| 0 <= k < ps@.len() && ps@[k].0@ == key@;
                                assert(k == i);
                            }
                        }
                        return Some(&ps[i].1);
                    }
                    i = i + 1;
                }
                proof {
                    if keys_distinct(ps@) {
                        lemma_props_lookup(ps@, key@);
                    }
                }
                None
            },
        }
    }

    /// Whether two blocks are the same block type (same name, same property map).
    #[verifier::loop_isolation(false)]
    pub fn same_as(&self, other: &Block) -> (r: bool)
        requires
            self.wf(),
            other.wf(),
        ensures
            r == (self@ == other@),
    {
        if !(self.name == other.name) {
            return false;
        }
        match (&self.properties, &other.properties) {
            (None, None) => true,
            (Some(a), Some(b)) => {
                proof {
                    lemma_entries_len(a@);
                    lemma_entries_len(b@);
                }
                if a.len() != b.len() {
                    return false;
                }
                let n = a.len();
                let mut i: usize = 0;
                while i < n
                    invariant
                        n == a@.len(),
                        n == b@.len(),
                        i <= n,
                        keys_distinct(a@),
                        keys_distinct(b@),
                        forall|j: int| 0 <= j < i ==> #[trigger] entries_view(b@).contains(entry_view(a@[j])),
                    decreases n - i,
                {
                    let mut found = false;
                    let mut k: usize = 0;
                    while k < n
                        invariant
                            n == a@.len(),
                            n == b@.len(),
                            i < n,
                            k <= n,
                            !found ==> forall|l: int| 0 <= l < k ==> entry_view(b@[l]) != entry_view(a@[i as int]),
                            found ==> entries_view(b@).contains(entry_view(a@[i as int])),
                        decreases n - k,
                    {
                        if !found && b[k].0 == a[i].0 && b[k].1.same_as(&a[i].1) {
                            found = true;
                            proof {
                                let vs = b@.map_values(|e: (String, PropertyValue)| entry_view(e));
                                assert(vs[k as int] == entry_view(a@[i as int]));
                            }
                        }
                        k = k + 1;
                    }
                    if !found {
                        proof {
                            assert(!entries_view(b@).contains(entry_view(a@[i as int])));
                            assert(entries_view(a@).contains(entry_view(a@[i as int]))) by {
                                let vs = a@.map_values(|e: (String, PropertyValue)| entry_view(e));
                                assert(vs[i as int] == entry_view(a@[i as int]));
                            }
                        }
                        return false;
                    }
                    i = i + 1;
                }
                proof {
                    let sa = entries_view(a@);
                    let sb = entries_view(b@);
                    assert(sa.subset_of(sb)) by {
                        assert forall|e| sa.contains(e) implies sb.contains(e) by {
                            let vs = a@.map_values(|e: (String, PropertyValue)| entry_view(e));
                            let j = choose|j: int| 0 <= j < vs.len() && vs[j] == e;
                            assert(sb.contains(entry_view(a@[j])));
                        }
                    }
                    vstd::set_lib::lemma_subset_equality(sa, sb);
                }
                true
            },
            _ => false,
        }
    }
}


/// An index into the palette of a [`BlockStorage`].
#[derive(Copy, Clone, Debug, PartialEq, Eq, Structural)]
pub struct BlockTypeIndex(pub u32);

impl BlockTypeIndex {
    /// The palette slot this index refers to.
    pub fn value(&self) -> (r: u32)
        ensures
            r == self.0,
    {
        self.0
    }
}

/// Error raised by block accesses outside the storage's extents.
#[derive(Debug, PartialEq, Eq, Structural)]
pub enum BlockStorageError {
    OutOfBounds { x: u32, y: u32, z: u32, size_x: u32, size_y: u32, size_z: u32 },
}

/// Blocks on a 3D grid of extents `(sx, sy, sz)`, each naming an entry of a palette of block
/// types. Blocks are stored in x - z - y order.
pub struct BlockStorage {
    extents: [u32; 3],
    /// Scale for Z coordinates when computing indices.
    zsi: u32,
    /// Scale for Y coordinates when computing indices.
    ysi: u32,
    palette: Vec<Block>,
    blocks: Vec<BlockTypeIndex>,
}

/// The mathematical value of a [`BlockStorage`].
pub struct BlockStorageView {
    /// Size along x, y and z.
    pub extents: (nat, nat, nat),
    /// The block types, in the order they were added.
    pub palette: Seq<BlockView>,
    /// The palette index stored at each in-bounds position `(x, y, z)`.
    pub blocks: Map<(int, int, int), BlockTypeIndex>,
}

impl BlockStorageView {
    /// Whether `(x, y, z)` lies inside the extents.
    pub open spec fn in_bounds(self, x: int, y: int, z: int) -> bool {
        0 <= x < self.extents.0 && 0 <= y < self.extents.1 && 0 <= z < self.extents.2
    }

    /// Number of block positions.
    pub open spec fn volume(self) -> nat {
        self.extents.0 * self.extents.1 * self.extents.2
    }

    /// The storage covers exactly its extents, and always has at least one block type.
    pub open spec fn wf(self) -> bool {
        &&& forall|p: (int, int, int)| #[trigger] self.blocks.contains_key(p) <==> self.in_bounds(p.0, p.1, p.2)
        &&& self.palette.len() >= 1
        &&& self.volume() <= u32::MAX
    }

    /// The palette index at an in-bounds position.
    pub open spec fn at(self, x: int, y: int, z: int) -> BlockTypeIndex {
        self.blocks[(x, y, z)]
    }

    /// The position of the `i`-th block in storage order (x fastest, then z, then y).
    pub open spec fn coords_of(self, i: int) -> (int, int, int) {
        (i % (self.extents.0 as int), i / ((self.extents.0 * self.extents.2) as int), (i / (self.extents.0 as int)) % (self.extents.2 as int))
    }

    /// The same storage, with the block at `(x, y, z)` set to `b`.
    pub open spec fn with_block(self, x: int, y: int, z: int, b: BlockTypeIndex) -> BlockStorageView {
        BlockStorageView { blocks: self.blocks.insert((x, y, z), b), ..self }
    }
}

/// Index of `(x, y, z)` in storage order.
pub open spec fn linear_index(sx: int, sz: int, x: int, y: int, z: int) -> int {
    x + z * sx + y * (sx * sz)
}

/// The view of a storage with the given fields.
pub open spec fn storage_view(extents: [u32; 3], palette: Seq<Block>, blocks: Seq<BlockTypeIndex>) -> BlockStorageView {
    let sx = extents[0] as int;
    let sz = extents[2] as int;
    BlockStorageView {
        extents: (extents[0] as nat, extents[1] as nat, extents[2] as nat),
        palette: palette.map_values(|b: Block| b@),
        blocks: Map::new(
            |p: (int, int, int)| 0 <= p.0 < extents[0] && 0 <= p.1 < extents[1] && 0 <= p.2 < extents[2],
            |p: (int, int, int)| blocks[linear_index(sx, sz, p.0, p.1, p.2)],
        ),
    }
}

proof fn lemma_storage_view_update(extents: [u32; 3], palette: Seq<Block>, blocks: Seq<BlockTypeIndex>, x: int, y: int, z: int)
    requires
        0 <= x < extents[0],
        0 <= y < extents[1],
        0 <= z < extents[2],
        blocks.len() == extents[0] * extents[1] * extents[2],
    ensures
        forall|v: BlockTypeIndex| #[trigger] storage_view(extents, palette,
            blocks.update(linear_index(extents[0] as int, extents[2] as int, x, y, z), v))
            == storage_view(extents, palette, blocks).with_block(x, y, z, v),
{
    let sx = extents[0] as int;
    let sy = extents[1] as int;
    let sz = extents[2] as int;
    let i = linear_index(sx, sz, x, y, z);
    assert forall|v: BlockTypeIndex| #[trigger] storage_view(extents, palette, blocks.update(i, v))
        == storage_view(extents, palette, blocks).with_block(x, y, z, v) by {
        let a = storage_view(extents, palette, blocks.update(i, v));
        let b = storage_view(extents, palette, blocks).with_block(x, y, z, v);
        lemma_index_in_range(sx, sy, sz, x, y, z);
        assert forall|p: (int, int, int)| #[trigger] a.blocks.contains_key(p) implies a.blocks[p] == b.blocks[p] by {
            lemma_index_in_range(sx, sy, sz, p.0, p.1, p.2);
            let j = linear_index(sx, sz, p.0, p.1, p.2);
            if p != (x, y, z) {
                assert(j != i);
            }
        }
        assert(a.blocks =~= b.blocks);
    }
}

impl View for BlockStorage {
    type V = BlockStorageView;

    closed spec fn view(&self) -> BlockStorageView {
        storage_view(self.extents, self.palette@, self.blocks@)
    }
}

impl BlockStorage {
    /// Internal consistency: index scales match the extents, the block vector covers the
    /// extents, and the palette holds well-formed block types.
    pub closed spec fn wf(&self) -> bool {
        &&& self.zsi == self.extents[0]
        &&& self.ysi == self.extents[0] * self.extents[2]
        &&& self.extents[0] * self.extents[1] * self.extents[2] <= u32::MAX
        &&& self.blocks@.len() == self.extents[0] * self.extents[1] * self.extents[2]
        &&& self.palette@.len() >= 1
        &&& forall|i: int| 0 <= i < self.palette@.len() ==> #[trigger] self.palette@[i].wf()
    }

    /// A well-formed storage has a well-formed view.
    pub proof fn lemma_view_wf(&self)
        requires
            self.wf(),
        ensures
            self@.wf(),
    {
        let v = self@;
        assert(v.volume() == self.extents[0] * self.extents[1] * self.extents[2]);
    }

    /// An empty (all air) storage with the given extents.
    pub fn new(sx: u32, sy: u32, sz: u32) -> (r: BlockStorage)
        requires
            sx * sy <= u32::MAX,
            sx * sy * sz <= u32::MAX,
            sx * sz <= u32::MAX,
        ensures
            r.wf(),
            r@.extents == (sx as nat, sy as nat, sz as nat),
            r@.palette.len() == 1,
            r@.palette[0] == (BlockView { name: "minecraft:air"@, properties: None }),
            forall|x: int, y: int, z: int| r@.in_bounds(x, y, z) ==> #[trigger] r@.at(x, y, z) == BlockTypeIndex(0),
    {
        let total: u32 = sx * sy * sz;
        let blocks: Vec<BlockTypeIndex> = vec![BlockTypeIndex(0); total as usize];
        let mut palette: Vec<Block> = Vec::new();
        palette.push(Block::new(String::from_str("minecraft:air")));
        let r = BlockStorage { extents: [sx, sy, sz], zsi: sx, ysi: sx * sz, palette, blocks };
        proof {
            assert(r@.palette[0] == r.palette@[0]@);
            assert forall|x: int, y: int, z: int| r@.in_bounds(x, y, z) implies #[trigger] r@.at(x, y, z) == BlockTypeIndex(0) by {
                lemma_index_in_range(sx as int, sy as int, sz as int, x, y, z);
            }
        }
        r
    }
}

impl BlockStorage {
    /// Size along x, y and z.
    pub fn extents(&self) -> (r: &[u32; 3])
        ensures
            r@ == seq![self@.extents.0 as u32, self@.extents.1 as u32, self@.extents.2 as u32],
    {
        &self.extents
    }

    /// The block type for a palette index, if the palette has that slot.
    pub fn info_for_index(&self, index: BlockTypeIndex) -> (r: Option<&Block>)
        requires
            self.wf(),
        ensures
            match r {
                Some(b) => index.0 < self@.palette.len() && b@ == self@.palette[index.0 as int] && b.wf(),
                None => index.0 >= self@.palette.len(),
            },
    {
        if (index.0 as usize) < self.palette.len() {
            Some(&self.palette[index.0 as usize])
        } else {
            None
        }
    }

    /// The palette index of block type `b`, adding it to the palette when no equal block type
    /// is there yet.
    pub fn add_new_block_type(&mut self, b: Block) -> (r: BlockTypeIndex)
        requires
            old(self).wf(),
            b.wf(),
            old(self)@.palette.len() < u32::MAX,
        ensures
            final(self).wf(),
            final(self)@.extents == old(self)@.extents,
            final(self)@.blocks == old(self)@.blocks,
            (r.0 as int) < final(self)@.palette.len(),
            final(self)@.palette[r.0 as int] == b@,
            old(self)@.palette.contains(b@) ==> final(self)@.palette == old(self)@.palette
                && forall|i: int| 0 <= i < r.0 ==> old(self)@.palette[i] != b@,
            !old(self)@.palette.contains(b@) ==> final(self)@.palette == old(self)@.palette.push(b@)
                && r.0 == old(self)@.palette.len(),
            adds_block_type(old(self)@.palette, b@, r, final(self)@.palette),
    {
        let n = self.palette.len();
        let mut i: usize = 0;
        while i < n
            invariant
                n == self.palette@.len(),
                n < u32::MAX,
                self.wf(),
                b.wf(),
                i <= n,
                forall|j: int| 0 <= j < i ==> self@.palette[j] != b@,
            decreases n - i,
        {
            if self.palette[i].same_as(&b) {
                proof {
                    assert(self@.palette[i as int] == b@);
                    assert(self@.palette.contains(b@));
                }
                return BlockTypeIndex(i as u32);
            }
            proof { assert(self@.palette[i as int] == self.palette@[i as int]@); }
            i = i + 1;
        }
        proof {
            assert(!self@.palette.contains(b@));
        }
        let idx = self.palette.len();
        self.palette.push(b);
        proof {
            assert(self@.palette =~= old(self)@.palette.push(b@));
        }
        BlockTypeIndex(idx as u32)
    }

    /// The palette index at `(x, y, z)`, or an error when outside the extents.
    pub fn get_block(&self, x: u32, y: u32, z: u32) -> (r: Result<&BlockTypeIndex, BlockStorageError>)
        requires
            self.wf(),
        ensures
            match r {
                Ok(b) => self@.in_bounds(x as int, y as int, z as int) && *b == self@.at(x as int, y as int, z as int),
                Err(e) => !self@.in_bounds(x as int, y as int, z as int) && e == self.out_of_bounds(x, y, z),
            },
    {
        if x >= self.extents[0] || y >= self.extents[1] || z >= self.extents[2] {
            return Err(BlockStorageError::OutOfBounds {
                x, y, z, size_x: self.extents[0], size_y: self.extents[1], size_z: self.extents[2],
            });
        }
        proof {
            lemma_index_in_range(self.extents[0] as int, self.extents[1] as int, self.extents[2] as int, x as int, y as int, z as int);
            assert(z * self.zsi + y * self.ysi == z * self.extents[0] + y * (self.extents[0] * self.extents[2]));
        }
        let i = x + z * self.zsi + y * self.ysi;
        Ok(&self.blocks[i as usize])
    }

    /// The error reported for an access at `(x, y, z)` outside the extents.
    pub open spec fn out_of_bounds(&self, x: u32, y: u32, z: u32) -> BlockStorageError {
        BlockStorageError::OutOfBounds {
            x, y, z,
            size_x: self@.extents.0 as u32,
            size_y: self@.extents.1 as u32,
            size_z: self@.extents.2 as u32,
        }
    }

    /// A mutable reference to the palette index at `(x, y, z)`, or an error when outside the
    /// extents.
    pub fn get_block_mut(&mut self, x: u32, y: u32, z: u32) -> (r: Result<&mut BlockTypeIndex, BlockStorageError>)
        requires
            old(self).wf(),
        ensures
            match r {
                Ok(b) => old(self)@.in_bounds(x as int, y as int, z as int)
                    && *b == old(self)@.at(x as int, y as int, z as int)
                    && final(self).wf()
                    && final(self)@ == old(self)@.with_block(x as int, y as int, z as int, *final(b)),
                Err(e) => !old(self)@.in_bounds(x as int, y as int, z as int)
                    && e == old(self).out_of_bounds(x, y, z)
                    && *final(self) == *old(self),
            },
    {
        if x >= self.extents[0] || y >= self.extents[1] || z >= self.extents[2] {
            return Err(BlockStorageError::OutOfBounds {
                x, y, z, size_x: self.extents[0], size_y: self.extents[1], size_z: self.extents[2],
            });
        }
        proof {
            lemma_index_in_range(self.extents[0] as int, self.extents[1] as int, self.extents[2] as int, x as int, y as int, z as int);
            assert(z * self.zsi + y * self.ysi == z * self.extents[0] + y * (self.extents[0] * self.extents[2]));
            lemma_storage_view_update(self.extents, self.palette@, self.blocks@, x as int, y as int, z as int);
        }
        let i = x + z * self.zsi + y * self.ysi;
        Ok(&mut self.blocks[i as usize])
    }
}

impl BlockStorage {
    /// Number of blocks in storage order.
    pub fn len(&self) -> (r: usize)
        requires
            self.wf(),
        ensures
            r == self@.volume(),
    {
        self.blocks.len()
    }

    /// The palette index of the `i`-th block in storage order.
    fn block_by_index(&self, i: usize) -> (r: BlockTypeIndex)
        requires
            self.wf(),
            i < self@.volume(),
        ensures
            self@.extents.0 > 0 && self@.extents.2 > 0,
            self@.in_bounds(self@.coords_of(i as int).0, self@.coords_of(i as int).1, self@.coords_of(i as int).2),
            r == self@.at(self@.coords_of(i as int).0, self@.coords_of(i as int).1, self@.coords_of(i as int).2),
    {
        proof {
            let sx = self.extents[0] as int;
            let sy = self.extents[1] as int;
            let sz = self.extents[2] as int;
            assert(sx > 0 && sz > 0) by (nonlinear_arith)
                requires i < sx * sy * sz, 0 <= sx, 0 <= sy, 0 <= sz, i >= 0;
            lemma_coords_in_range(sx, sy, sz, i as int);
        }
        self.blocks[i]
    }

    /// Iterator over the palette indices of all blocks, in storage order.
    pub fn iter_block_indicies(&self) -> (r: BlockIndexIter<'_>)
        requires
            self.wf(),
        ensures
            r.wf(),
            r.storage() == self@,
            r.position() == 0,
    {
        BlockIndexIter::new(self)
    }

    /// Iterator over all blocks with their coordinates, in storage order.
    pub fn iter_block_coords(&self) -> (r: BlockCoordIter<'_>)
        requires
            self.wf(),
        ensures
            r.wf(),
            r.storage() == self@,
            r.position() == 0,
    {
        BlockCoordIter::new(self)
    }
}

/// Iterator over the palette indices of a storage's blocks, in storage order.
pub struct BlockIndexIter<'a> {
    parent: &'a BlockStorage,
    pos: usize,
}

impl<'a> BlockIndexIter<'a> {
    pub closed spec fn wf(&self) -> bool {
        self.parent.wf() && self.pos <= self.parent@.volume()
    }

    /// The storage being walked.
    pub closed spec fn storage(&self) -> BlockStorageView {
        self.parent@
    }

    /// How many blocks have been handed out.
    pub closed spec fn position(&self) -> nat {
        self.pos as nat
    }

    pub fn new(parent: &'a BlockStorage) -> (r: BlockIndexIter<'a>)
        requires
            parent.wf(),
        ensures
            r.wf(),
            r.storage() == parent@,
            r.position() == 0,
    {
        BlockIndexIter { parent, pos: 0 }
    }

    /// The next palette index, or `None` once every block has been visited.
    pub fn next(&mut self) -> (r: Option<BlockTypeIndex>)
        requires
            old(self).wf(),
        ensures
            final(self).wf(),
            final(self).storage() == old(self).storage(),
            old(self).position() < old(self).storage().volume() ==> {
                let c = old(self).storage().coords_of(old(self).position() as int);
                &&& r == Some(old(self).storage().at(c.0, c.1, c.2))
                &&& final(self).position() == old(self).position() + 1
            },
            old(self).position() >= old(self).storage().volume() ==> r is None && final(self).position() == old(self).position(),
    {
        if self.pos < self.parent.len() {
            let b = self.parent.block_by_index(self.pos);
            self.pos = self.pos + 1;
            Some(b)
        } else {
            None
        }
    }
}

/// Iterator over a storage's blocks with their `(x, y, z)` coordinates, in storage order.
pub struct BlockCoordIter<'a> {
    parent: &'a BlockStorage,
    pos: usize,
}

impl<'a> BlockCoordIter<'a> {
    pub closed spec fn wf(&self) -> bool {
        self.parent.wf() && self.pos <= self.parent@.volume()
    }

    /// The storage being walked.
    pub closed spec fn storage(&self) -> BlockStorageView {
        self.parent@
    }

    /// How many blocks have been handed out.
    pub closed spec fn position(&self) -> nat {
        self.pos as nat
    }

    pub fn new(parent: &'a BlockStorage) -> (r: BlockCoordIter<'a>)
        requires
            parent.wf(),
        ensures
            r.wf(),
            r.storage() == parent@,
            r.position() == 0,
    {
        BlockCoordIter { parent, pos: 0 }
    }

    /// The next block and its coordinates, or `None` once every block has been visited.
    pub fn next(&mut self) -> (r: Option<((u32, u32, u32), BlockTypeIndex)>)
        requires
            old(self).wf(),
        ensures
            final(self).wf(),
            final(self).storage() == old(self).storage(),
            old(self).position() < old(self).storage().volume() ==> {
                let c = old(self).storage().coords_of(old(self).position() as int);
                &&& old(self).storage().in_bounds(c.0, c.1, c.2)
                &&& r == Some(((c.0 as u32, c.1 as u32, c.2 as u32), old(self).storage().at(c.0, c.1, c.2)))
                &&& final(self).position() == old(self).position() + 1
            },
            old(self).position() >= old(self).storage().volume() ==> r is None && final(self).position() == old(self).position(),
    {
        if self.pos < self.parent.len() {
            let b = self.parent.block_by_index(self.pos);
            let i = self.pos as u32;
            proof {
                let sx = self.parent.extents[0] as int;
                let sz = self.parent.extents[2] as int;
                assert(sx * sz > 0) by (nonlinear_arith) requires sx > 0, sz > 0;
            }
            let x = i % self.parent.extents[0];
            let z = (i / self.parent.zsi) % self.parent.extents[2];
            let y = (i / self.parent.ysi) % self.parent.extents[1];
            proof {
                let sx = self.parent.extents[0] as int;
                let sy = self.parent.extents[1] as int;
                let sz = self.parent.extents[2] as int;
                lemma_coords_in_range(sx, sy, sz, i as int);
                vstd::arithmetic::div_mod::lemma_small_mod((i / self.parent.ysi) as nat, sy as nat);
            }
            self.pos = self.pos + 1;
            Some(((x, y, z), b))
        } else {
            None
        }
    }
}

impl BlockStorage {
    /// Cursor walking all blocks in storage order; each step hands out the block's coordinates
    /// with a mutable reference to its palette index in the storage passed to
    /// [`BlockCoordMutIter::next`].
    pub fn iter_block_coords_mut(&mut self) -> (r: BlockCoordMutIter)
        requires
            old(self).wf(),
        ensures
            r.wf(),
            r.extents() == old(self)@.extents,
            r.position() == 0,
            *final(self) == *old(self),
    {
        BlockCoordMutIter::new(self)
    }
}

/// Cursor over the blocks of a storage in storage order, handing out mutable references.
pub struct BlockCoordMutIter {
    extents: [u32; 3],
    zsi: u32,
    ysi: u32,
    pos: usize,
}

impl BlockCoordMutIter {
    pub closed spec fn wf(&self) -> bool {
        &&& self.zsi == self.extents[0]
        &&& self.ysi == self.extents[0] * self.extents[2]
        &&& self.extents[0] * self.extents[1] * self.extents[2] <= u32::MAX
        &&& self.pos <= self.extents[0] * self.extents[1] * self.extents[2]
    }

    /// Extents of the storage being walked.
    pub closed spec fn extents(&self) -> (nat, nat, nat) {
        (self.extents[0] as nat, self.extents[1] as nat, self.extents[2] as nat)
    }

    /// How many blocks have been handed out.
    pub closed spec fn position(&self) -> nat {
        self.pos as nat
    }

    pub fn new(parent: &BlockStorage) -> (r: BlockCoordMutIter)
        requires
            parent.wf(),
        ensures
            r.wf(),
            r.extents() == parent@.extents,
            r.position() == 0,
    {
        BlockCoordMutIter { extents: parent.extents, zsi: parent.zsi, ysi: parent.ysi, pos: 0 }
    }

    /// The next block's coordinates and a mutable reference to its palette index in `storage`,
    /// or `None` once every block has been visited.
    pub fn next<'s>(&mut self, storage: &'s mut BlockStorage) -> (r: Option<((u32, u32, u32), &'s mut BlockTypeIndex)>)
        requires
            old(self).wf(),
            old(storage).wf(),
            old(storage)@.extents == old(self).extents(),
        ensures
            final(self).wf(),
            final(self).extents() == old(self).extents(),
            match r {
                Some((c, b)) => {
                    let (x, y, z) = (c.0 as int, c.1 as int, c.2 as int);
                    &&& old(self).position() < old(storage)@.volume()
                    &&& (x, y, z) == old(storage)@.coords_of(old(self).position() as int)
                    &&& old(storage)@.in_bounds(x, y, z)
                    &&& *b == old(storage)@.at(x, y, z)
                    &&& final(storage).wf()
                    &&& final(storage)@ == old(storage)@.with_block(x, y, z, *final(b))
                    &&& final(self).position() == old(self).position() + 1
                },
                None => old(self).position() >= old(storage)@.volume()
                    && final(self).position() == old(self).position()
                    && *final(storage) == *old(storage),
            },
    {
        if self.pos >= storage.len() {
            return None;
        }
        let i = self.pos as u32;
        proof {
            let sx = self.extents[0] as int;
            let sy = self.extents[1] as int;
            let sz = self.extents[2] as int;
            assert(sx > 0 && sz > 0 && sy > 0) by (nonlinear_arith)
                requires i < sx * sy * sz, 0 <= sx, 0 <= sy, 0 <= sz, i >= 0;
            assert(sx * sz > 0) by (nonlinear_arith) requires sx > 0, sz > 0;
            lemma_coords_in_range(sx, sy, sz, i as int);
            let ii = i as int;
            let x = ii % sx;
            let y = ii / (sx * sz);
            let z = (ii / sx) % sz;
            assert(ii == y * (sx * sz) + (x + z * sx)) by (nonlinear_arith)
                requires ii == x + z * sx + y * (sx * sz);
            assert(x + z * sx < sx * sz) by (nonlinear_arith) requires 0 <= x < sx, 0 <= z < sz;
            vstd::arithmetic::div_mod::lemma_fundamental_div_mod_converse(ii, sx * sz, y, x + z * sx);
            vstd::arithmetic::div_mod::lemma_fundamental_div_mod_converse(x + z * sx, sx, z, x);
        }
        let x = i % self.zsi;
        let z = (i % self.ysi) / self.zsi;
        let y = i / self.ysi;
        self.pos = self.pos + 1;
        match storage.get_block_mut(x, y, z) {
            Ok(b) => Some(((x, y, z), b)),
            Err(_) => None,
        }
    }
}

/// What adding block type `b` to palette `p0` gives: palette `p1` and index `r`, the first slot
/// of `p1` holding `b`; `b` is appended when `p0` lacks it, and nothing changes otherwise.
pub open spec fn adds_block_type(p0: Seq<BlockView>, b: BlockView, r: BlockTypeIndex, p1: Seq<BlockView>) -> bool {
    &&& (r.0 as int) < p1.len()
    &&& p1[r.0 as int] == b
    &&& forall|i: int| 0 <= i < r.0 ==> p1[i] != b
    &&& p1 == (if p0.contains(b) { p0 } else { p0.push(b) })
}

/// Adding the same block type twice: the second time gives the same index and changes nothing.
pub proof fn lemma_add_block_type_twice(p0: Seq<BlockView>, b: BlockView, r1: BlockTypeIndex, p1: Seq<BlockView>,
    r2: BlockTypeIndex, p2: Seq<BlockView>)
    requires
        adds_block_type(p0, b, r1, p1),
        adds_block_type(p1, b, r2, p2),
    ensures
        r2 == r1,
        p2 == p1,
{
    assert(p1.contains(b));
    if r1.0 < r2.0 {
        assert(p1[r1.0 as int] != b);
    } else if r2.0 < r1.0 {
        assert(p1[r2.0 as int] != b);
    }
}

/// Storage order visits every in-bounds position exactly once: the first `volume` indices
/// map to in-bounds positions, distinct indices to distinct positions, and every in-bounds
/// position is reached by its linear index.
pub proof fn lemma_coords_cover(v: BlockStorageView)
    ensures
        forall|i: int| 0 <= i < v.volume() ==> ({
            let c = #[trigger] v.coords_of(i);
            v.in_bounds(c.0, c.1, c.2) && linear_index(v.extents.0 as int, v.extents.2 as int, c.0, c.1, c.2) == i
        }),
        forall|i: int, j: int| 0 <= i < v.volume() && 0 <= j < v.volume() && #[trigger] v.coords_of(i) == #[trigger] v.coords_of(j) ==> i == j,
        forall|x: int, y: int, z: int| #[trigger] v.in_bounds(x, y, z) ==>
            0 <= linear_index(v.extents.0 as int, v.extents.2 as int, x, y, z) < v.volume()
            && v.coords_of(linear_index(v.extents.0 as int, v.extents.2 as int, x, y, z)) == (x, y, z),
{
    let sx = v.extents.0 as int;
    let sy = v.extents.1 as int;
    let sz = v.extents.2 as int;
    assert forall|i: int| 0 <= i < v.volume() implies ({
        let c = #[trigger] v.coords_of(i);
        v.in_bounds(c.0, c.1, c.2) && linear_index(sx, sz, c.0, c.1, c.2) == i
    }) by {
        assert(0 < sx && 0 < sz) by (nonlinear_arith)
            requires 0 <= i < sx * sy * sz, 0 <= sx, 0 <= sy, 0 <= sz;
        lemma_coords_in_range(sx, sy, sz, i);
    }
    assert forall|i: int, j: int| 0 <= i < v.volume() && 0 <= j < v.volume() && #[trigger] v.coords_of(i) == #[trigger] v.coords_of(j)
        implies i == j by {
        assert(0 < sx && 0 < sz) by (nonlinear_arith)
            requires 0 <= i < sx * sy * sz, 0 <= sx, 0 <= sy, 0 <= sz;
        lemma_coords_in_range(sx, sy, sz, i);
        lemma_coords_in_range(sx, sy, sz, j);
    }
    assert forall|x: int, y: int, z: int| #[trigger] v.in_bounds(x, y, z) implies
        0 <= linear_index(sx, sz, x, y, z) < v.volume() && v.coords_of(linear_index(sx, sz, x, y, z)) == (x, y, z) by {
        lemma_index_in_range(sx, sy, sz, x, y, z);
    }
}

/// Index arithmetic of storage order: an in-range position maps into range, and the
/// position can be recovered from its index.
pub proof fn lemma_linear_index(sx: int, sy: int, sz: int, x: int, y: int, z: int)
    requires
        0 <= x < sx,
        0 <= y < sy,
        0 <= z < sz,
    ensures
        0 <= linear_index(sx, sz, x, y, z) < sx * sy * sz,
        linear_index(sx, sz, x, y, z) % sx == x,
        linear_index(sx, sz, x, y, z) / (sx * sz) == y,
        (linear_index(sx, sz, x, y, z) / sx) % sz == z,
{
    lemma_index_in_range(sx, sy, sz, x, y, z);
}

proof fn lemma_index_in_range(sx: int, sy: int, sz: int, x: int, y: int, z: int)
    requires
        0 <= x < sx,
        0 <= y < sy,
        0 <= z < sz,
    ensures
        0 <= linear_index(sx, sz, x, y, z) < sx * sy * sz,
        linear_index(sx, sz, x, y, z) % sx == x,
        linear_index(sx, sz, x, y, z) / (sx * sz) == y,
        (linear_index(sx, sz, x, y, z) / sx) % sz == z,
{
    let i = linear_index(sx, sz, x, y, z);
    assert(0 <= z * sx + y * (sx * sz)) by (nonlinear_arith)
        requires 0 <= z, 0 <= y, 0 <= sx, 0 <= sz;
    assert(i < sx * sy * sz) by (nonlinear_arith)
        requires 0 <= x < sx, 0 <= y < sy, 0 <= z < sz, i == x + z * sx + y * (sx * sz);
    assert(i == (z + y * sz) * sx + x) by (nonlinear_arith)
        requires i == x + z * sx + y * (sx * sz);
    vstd::arithmetic::div_mod::lemma_fundamental_div_mod_converse(i, sx, z + y * sz, x);
    assert(z + y * sz == y * sz + z) by (nonlinear_arith);
    vstd::arithmetic::div_mod::lemma_fundamental_div_mod_converse(z + y * sz, sz, y, z);
    assert(i == y * (sx * sz) + (x + z * sx)) by (nonlinear_arith)
        requires i == x + z * sx + y * (sx * sz);
    assert(x + z * sx < sx * sz) by (nonlinear_arith) requires 0 <= x < sx, 0 <= z < sz;
    assert(0 <= x + z * sx) by (nonlinear_arith) requires 0 <= x, 0 <= z, 0 <= sx;
    vstd::arithmetic::div_mod::lemma_fundamental_div_mod_converse(i, sx * sz, y, x + z * sx);
}

proof fn lemma_coords_in_range(sx: int, sy: int, sz: int, i: int)
    requires
        0 < sx,
        0 < sz,
        0 <= i < sx * sy * sz,
    ensures
        ({
            let x = i % sx;
            let y = i / (sx * sz);
            let z = (i / sx) % sz;
            &&& 0 <= x < sx
            &&& 0 <= y < sy
            &&& 0 <= z < sz
            &&& linear_index(sx, sz, x, y, z) == i
        }),
{
    let x = i % sx;
    let q = i / sx;
    let z = q % sz;
    let y = q / sz;
    vstd::arithmetic::div_mod::lemma_fundamental_div_mod(i, sx);
    vstd::arithmetic::div_mod::lemma_fundamental_div_mod(q, sz);
    vstd::arithmetic::div_mod::lemma_div_denominator(i, sx, sz);
    vstd::arithmetic::div_mod::lemma_div_pos_is_pos(i, sx);
    vstd::arithmetic::div_mod::lemma_div_pos_is_pos(q, sz);
    vstd::arithmetic::div_mod::lemma_mod_pos_bound(i, sx);
    vstd::arithmetic::div_mod::lemma_mod_pos_bound(q, sz);
    assert(i == (sx * sz) * y + (sx * z + x)) by (nonlinear_arith)
        requires i == sx * q + x, q == sz * y + z;
    assert(y < sy) by (nonlinear_arith)
        requires i == (sx * sz) * y + (sx * z + x), 0 <= x, 0 <= z, 0 < sx, 0 < sz, i < sx * sy * sz;
    assert(linear_index(sx, sz, x, y, z) == i) by (nonlinear_arith)
        requires i == sx * q + x, q == sz * y + z;
}

} // verus!
