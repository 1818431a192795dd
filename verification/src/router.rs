//! Routing a whole design: marking the blocks of placed cells as obstacles on the detail
//! routing grid, finding the pins, routing net after net with rip-up and reroute, and turning
//! the routed grid into wire blocks.

use vstd::prelude::*;

use crate::block_storage::{
    direction_delta, view_property, Block, BlockStorage, BlockStorageView, BlockTypeIndex, BlockView, Direction,
    Position, PropertyValue, PropertyValueView,
};
use crate::detail_routing::{
    compact_idx, layer_of_y, route_outcome, trunc_div, trunc_rem, DetailRouter, DetailRouterView,
    GridCell, GridCellPosition, LayerError, RoutingError,
};
use crate::netlist::{net_fits, Net, NetView, Netlist, Pin};
use crate::routing_2d::RouteId;
use crate::text::{ends_with, int_literal, parse_i8_decimal, str_eq, value_within};
use crate::wire_segment::{
    lemma_run_writes_keeps, lemma_splat_palette, run_writes, splat_indices, splat_palette, splat_start_fits,
    splat_tier_fits, splat_wire_segment, wire_segment_plan, with_palette, WirePosition, WireTierLayer,
};
use crate::detail_routing::{layer_of_compact, step, Layer};

verus! {

/// Errors raised while routing a design.
#[derive(Debug, PartialEq)]
pub enum RouterError {
    /// A block names a palette entry that does not exist.
    UnknownBlockType(BlockTypeIndex),
    /// A pin sign's rotation is a string that is not a small integer.
    RotationUnparsable,
    /// A piston faces a sticky block, whose pushing is not modelled.
    StickyBlockUnsupported,
    /// A pin position has no place on the routing grid.
    PinPosition(LayerError),
    /// No pin sign was found where a net has a pin.
    PinNotFound(GridCellPosition),
    /// A net has more than one driver.
    DriverConflict,
    /// A net number does not fit the router's net ids.
    NetIndexOutOfRange(i64),
    /// An access to the routing grid failed.
    Routing(RoutingError),
}

/// The map from grid position to direction of a list of entries; later entries win.
pub open spec fn pin_map(s: Seq<(GridCellPosition, Direction)>) -> Map<(int, int, int), Direction>
    decreases s.len(),
{
    if s.len() == 0 {
        Map::empty()
    } else {
        pin_map(s.drop_last()).insert(s.last().0.key(), s.last().1)
    }
}

/// Directions in which pins leave their cells, by grid position.
pub struct KnownPins {
    entries: Vec<(GridCellPosition, Direction)>,
}

impl View for KnownPins {
    type V = Map<(int, int, int), Direction>;

    closed spec fn view(&self) -> Map<(int, int, int), Direction> {
        pin_map(self.entries@)
    }
}

proof fn lemma_pin_map_lookup(s: Seq<(GridCellPosition, Direction)>, i: int)
    requires
        0 <= i < s.len(),
        forall|a: int, b: int| 0 <= a < b < s.len() ==> s[a].0 != s[b].0,
    ensures
        pin_map(s).contains_key(s[i].0.key()),
        pin_map(s)[s[i].0.key()] == s[i].1,
    decreases s.len(),
{
    if i < s.len() - 1 {
        lemma_pin_map_lookup(s.drop_last(), i);
    }
}

proof fn lemma_pin_map_absent(s: Seq<(GridCellPosition, Direction)>, p: GridCellPosition)
    requires
        forall|j: int| 0 <= j < s.len() ==> s[j].0 != p,
    ensures
        !pin_map(s).contains_key(p.key()),
    decreases s.len(),
{
    if s.len() > 0 {
        lemma_pin_map_absent(s.drop_last(), p);
    }
}

proof fn lemma_pin_map_update(s: Seq<(GridCellPosition, Direction)>, i: int, d: Direction)
    requires
        0 <= i < s.len(),
        forall|a: int, b: int| 0 <= a < b < s.len() ==> s[a].0 != s[b].0,
    ensures
        pin_map(s.update(i, (s[i].0, d))) == pin_map(s).insert(s[i].0.key(), d),
    decreases s.len(),
{
    let t = s.update(i, (s[i].0, d));
    if i == s.len() - 1 {
        assert(t.drop_last() =~= s.drop_last());
        assert(pin_map(t) =~= pin_map(s).insert(s[i].0.key(), d));
    } else {
        assert(t.drop_last() =~= s.drop_last().update(i, (s[i].0, d)));
        lemma_pin_map_update(s.drop_last(), i, d);
        assert(s.last().0 != s[i].0);
        assert(pin_map(t) =~= pin_map(s).insert(s[i].0.key(), d));
    }
}

impl KnownPins {
    /// Grid positions are listed at most once.
    pub closed spec fn wf(&self) -> bool {
        forall|a: int, b: int| 0 <= a < b < self.entries@.len() ==> self.entries@[a].0 != self.entries@[b].0
    }

    /// No pins.
    pub fn new() -> (r: KnownPins)
        ensures
            r.wf(),
            r@ == Map::<(int, int, int), Direction>::empty(),
    {
        KnownPins { entries: Vec::new() }
    }

    /// Record that the pin at `p` leaves in direction `d`, replacing what was known of `p`.
    pub fn insert(&mut self, p: GridCellPosition, d: Direction)
        requires
            old(self).wf(),
        ensures
            final(self).wf(),
            final(self)@ == old(self)@.insert(p.key(), d),
    {
        let n = self.entries.len();
        let mut i: usize = 0;
        while i < n
            invariant
                n == self.entries@.len(),
                self.entries@ == old(self).entries@,
                old(self).wf(),
                i <= n,
                forall|j: int| 0 <= j < i ==> self.entries@[j].0 != p,
            decreases n - i,
        {
            if self.entries[i].0 == p {
                self.entries.set(i, (p, d));
                proof {
                    assert(self.entries@ == old(self).entries@.update(i as int, (old(self).entries@[i as int].0, d)));
                    lemma_pin_map_update(old(self).entries@, i as int, d);
                }
                return;
            }
            i = i + 1;
        }
        proof {
            lemma_pin_map_absent(self.entries@, p);
        }
        self.entries.push((p, d));
        proof {
            assert(self.entries@.drop_last() =~= old(self).entries@);
        }
    }

    /// The direction of the pin at `p`, if one is known.
    pub fn get(&self, p: GridCellPosition) -> (r: Option<Direction>)
        requires
            self.wf(),
        ensures
            match r {
                Some(d) => self@.contains_key(p.key()) && self@[p.key()] == d,
                None => !self@.contains_key(p.key()),
            },
    {
        let n = self.entries.len();
        let mut i: usize = 0;
        while i < n
            invariant
                n == self.entries@.len(),
                self.wf(),
                i <= n,
                forall|j: int| 0 <= j < i ==> self.entries@[j].0 != p,
            decreases n - i,
        {
            if self.entries[i].0 == p {
                proof {
                    lemma_pin_map_lookup(self.entries@, i as int);
                }
                return Some(self.entries[i].1);
            }
            i = i + 1;
        }
        proof {
            lemma_pin_map_absent(self.entries@, p);
        }
        None
    }
}

/// The direction named by a `facing` property value.
pub open spec fn direction_named(s: Seq<char>) -> Option<Direction> {
    if s == "north"@ {
        Some(Direction::North)
    } else if s == "south"@ {
        Some(Direction::South)
    } else if s == "east"@ {
        Some(Direction::East)
    } else if s == "west"@ {
        Some(Direction::West)
    } else if s == "up"@ {
        Some(Direction::Up)
    } else if s == "down"@ {
        Some(Direction::Down)
    } else {
        None
    }
}

/// The direction a block type faces, from its `facing` property.
pub open spec fn facing_of(b: BlockView) -> Option<Direction> {
    match view_property(b, "facing"@) {
        Some(PropertyValueView::String(s)) => direction_named(s),
        _ => None,
    }
}

/// The direction a block faces, if its `facing` property names one.
pub fn block_facing(block: &Block) -> (r: Option<Direction>)
    requires
        block.wf(),
    ensures
        r == facing_of(block@),
{
    match block.property("facing") {
        Some(PropertyValue::String(f)) => {
            let f = f.as_str();
            if str_eq(f, "north") {
                Some(Direction::North)
            } else if str_eq(f, "south") {
                Some(Direction::South)
            } else if str_eq(f, "east") {
                Some(Direction::East)
            } else if str_eq(f, "west") {
                Some(Direction::West)
            } else if str_eq(f, "up") {
                Some(Direction::Up)
            } else if str_eq(f, "down") {
                Some(Direction::Down)
            } else {
                None
            }
        },
        _ => None,
    }
}

/// The direction a pin sign's wire leaves in, from its rotation (sixteenths of a turn).
/// Rotations outside `[0, 16)` count as south.
pub open spec fn rotation_direction(v: int) -> Direction {
    if 0 <= v <= 3 {
        Direction::South
    } else if 4 <= v <= 7 {
        Direction::West
    } else if 8 <= v <= 11 {
        Direction::North
    } else if 12 <= v <= 15 {
        Direction::West
    } else {
        Direction::South
    }
}

/// The direction of a pin sign of type `b`: from its `rotation` property (a byte, or a string
/// holding a small integer), south when it has none.
pub open spec fn sign_direction(b: BlockView) -> Result<Direction, RouterError> {
    match view_property(b, "rotation"@) {
        None => Ok(Direction::South),
        Some(PropertyValueView::Byte(x)) => Ok(rotation_direction(x as int)),
        Some(PropertyValueView::String(s)) => if value_within(int_literal(s, 10, true), i8::MIN as int, i8::MAX as int) {
            Ok(rotation_direction(int_literal(s, 10, true).unwrap()))
        } else {
            Err(RouterError::RotationUnparsable)
        },
    }
}

fn rotation_to_direction(v: i8) -> (r: Direction)
    ensures
        r == rotation_direction(v as int),
        0 <= v <= 3 ==> r == Direction::South,
        4 <= v <= 7 ==> r == Direction::West,
        8 <= v <= 11 ==> r == Direction::North,
        12 <= v <= 15 ==> r == Direction::West,
        !(0 <= v <= 15) ==> r == Direction::South,
{
    if 0 <= v && v <= 3 {
        Direction::South
    } else if 4 <= v && v <= 7 {
        Direction::West
    } else if 8 <= v && v <= 11 {
        Direction::North
    } else if 12 <= v && v <= 15 {
        Direction::West
    } else {
        Direction::South
    }
}

/// The direction of the pin sign `block`.
fn sign_pin_direction(block: &Block) -> (r: Result<Direction, RouterError>)
    requires
        block.wf(),
    ensures
        r == sign_direction(block@),
{
    match block.property("rotation") {
        Some(PropertyValue::String(s)) => match parse_i8_decimal(s.as_str()) {
            Ok(v) => Ok(rotation_to_direction(v)),
            Err(_) => Err(RouterError::RotationUnparsable),
        },
        Some(PropertyValue::Byte(b)) => Ok(rotation_to_direction(*b)),
        None => Ok(Direction::South),
    }
}

/// A pin sign's wire leaves by the side its rotation (sixteenths of a turn, as a byte or as a
/// decimal string) points to: the first quarter turn south, the second west, the third north,
/// and the last west again; a sign without rotation, or with one outside `[0, 16)`, is taken
/// to point south.
pub proof fn lemma_sign_direction_by_rotation(b: BlockView, r: int)
    requires
        view_property(b, "rotation"@) == Some(PropertyValueView::Byte(r as i8)) && i8::MIN <= r <= i8::MAX
            || (view_property(b, "rotation"@) matches Some(PropertyValueView::String(s))
                && int_literal(s, 10, true) == Some(r) && i8::MIN <= r <= i8::MAX),
    ensures
        0 <= r <= 3 ==> sign_direction(b) == Ok::<Direction, RouterError>(Direction::South),
        4 <= r <= 7 ==> sign_direction(b) == Ok::<Direction, RouterError>(Direction::West),
        8 <= r <= 11 ==> sign_direction(b) == Ok::<Direction, RouterError>(Direction::North),
        12 <= r <= 15 ==> sign_direction(b) == Ok::<Direction, RouterError>(Direction::West),
        !(0 <= r <= 15) ==> sign_direction(b) == Ok::<Direction, RouterError>(Direction::South),
        view_property(b, "rotation"@) is None ==> sign_direction(b) == Ok::<Direction, RouterError>(Direction::South),
{
}

/// A `facing` property names its own direction: each of the six names `north`, `south`,
/// `east`, `west`, `up` and `down` gives the direction of that name, and any other value none.
pub proof fn lemma_facing_names(b: BlockView, s: Seq<char>)
    requires
        view_property(b, "facing"@) == Some(PropertyValueView::String(s)),
    ensures
        s == "north"@ <==> facing_of(b) == Some(Direction::North),
        s == "south"@ <==> facing_of(b) == Some(Direction::South),
        s == "east"@ <==> facing_of(b) == Some(Direction::East),
        s == "west"@ <==> facing_of(b) == Some(Direction::West),
        s == "up"@ <==> facing_of(b) == Some(Direction::Up),
        s == "down"@ <==> facing_of(b) == Some(Direction::Down),
        facing_of(b) is None <==> !(s == "north"@ || s == "south"@ || s == "east"@ || s == "west"@
            || s == "up"@ || s == "down"@),
{
    reveal_strlit("north");
    reveal_strlit("south");
    reveal_strlit("east");
    reveal_strlit("west");
    reveal_strlit("up");
    reveal_strlit("down");
    // The six names already differ in their first letter.
    assert("north"@[0] == 'n' && "south"@[0] == 's' && "east"@[0] == 'e' && "west"@[0] == 'w'
        && "up"@[0] == 'u' && "down"@[0] == 'd');
}

/// A block position as a triple of integers.
pub open spec fn pos_key(p: Position) -> (int, int, int) {
    (p.x as int, p.y as int, p.z as int)
}

/// The routing grid cell holding block position `p`, if `p` lies at or above the bottom tier.
pub open spec fn grid_of(p: (int, int, int)) -> Option<(int, int, int)> {
    if trunc_rem(p.1, 16) < 0 {
        None
    } else {
        Some((trunc_div(p.0, 2), trunc_div(p.1, 16) * 5 + compact_idx(layer_of_y(trunc_rem(p.1, 16))), trunc_div(p.2, 2)))
    }
}

/// Names of pistons.
pub open spec fn is_piston_name(n: Seq<char>) -> bool {
    n == "minecraft:piston"@ || n == "minecraft:sticky_piston"@
}

/// Names of blocks that drag their neighbours along when pushed.
pub open spec fn is_sticky_name(n: Seq<char>) -> bool {
    n == "minecraft:honey_block"@ || n == "minecraft:slime_block"@
}

/// `p` and its neighbours in the given directions.
pub open spec fn with_neighbours(p: (int, int, int), ds: Seq<Direction>) -> Seq<(int, int, int)> {
    seq![p] + Seq::new(ds.len(), |i: int| crate::detail_routing::step(p, ds[i]))
}

/// The block positions that a block of type `b` at `q` keeps wires out of: dust and its
/// horizontal neighbours; torches and levers with all their neighbours; repeaters with the
/// blocks north and south of them (when they face a horizontal direction); pistons with the
/// block their pushed block would move into; solid blocks (calcite, lamps, targets, wool) on
/// their own. Air, glass, signs and anything else block nothing.
pub open spec fn obstacle_footprint(b: BlockView, q: (int, int, int)) -> Seq<(int, int, int)> {
    let n = b.name;
    if n == "minecraft:redstone_wire"@ {
        with_neighbours(q, seq![Direction::North, Direction::South, Direction::East, Direction::West])
    } else if n == "minecraft:redstone_torch"@ || n == "minecraft:redstone_wall_torch"@ || n == "minecraft:lever"@ {
        with_neighbours(q, crate::block_storage::spec_all_directions())
    } else if n == "minecraft:repeater"@ {
        match facing_of(b) {
            Some(d) => if crate::wire_segment::is_planar(d) {
                with_neighbours(q, seq![Direction::North, Direction::South])
            } else {
                seq![q]
            },
            None => seq![q],
        }
    } else if is_piston_name(n) {
        match facing_of(b) {
            Some(d) => seq![q, crate::detail_routing::step(crate::detail_routing::step(q, d), d)],
            None => seq![q],
        }
    } else if n == "minecraft:calcite"@ || n == "minecraft:redstone_lamp"@ || n == "minecraft:target"@
        || crate::text::spec_ends_with(n, "_wool"@) {
        seq![q]
    } else {
        seq![]
    }
}

/// The distance between two integers.
pub open spec fn int_dist(a: int, b: int) -> int {
    if a < b { b - a } else { a - b }
}

/// The number of unit steps between two block positions.
pub open spec fn block_dist(p: (int, int, int), q: (int, int, int)) -> int {
    int_dist(p.0, q.0) + int_dist(p.1, q.1) + int_dist(p.2, q.2)
}

/// The shape of what a block keeps wires out of, for a block at `q`: dust keeps out `q` and
/// the four positions next to it on its own level; a torch or a lever `q` and all six
/// positions next to it; a repeater facing a horizontal direction `q` and the positions just
/// north and south of it; a piston facing `d` `q` and the position two steps away in
/// direction `d`; calcite, lamps, targets and wool only `q`.
pub proof fn lemma_obstacle_footprint_shape(b: BlockView, q: (int, int, int), p: (int, int, int))
    ensures
        b.name == "minecraft:redstone_wire"@ ==> (obstacle_footprint(b, q).contains(p)
            <==> p.1 == q.1 && block_dist(p, q) <= 1),
        b.name == "minecraft:redstone_torch"@ || b.name == "minecraft:redstone_wall_torch"@ || b.name == "minecraft:lever"@
            ==> (obstacle_footprint(b, q).contains(p) <==> block_dist(p, q) <= 1),
        b.name == "minecraft:repeater"@ && (facing_of(b) matches Some(d) && crate::wire_segment::is_planar(d))
            ==> (obstacle_footprint(b, q).contains(p) <==> p.0 == q.0 && p.1 == q.1 && int_dist(p.2, q.2) <= 1),
        is_piston_name(b.name) && (facing_of(b) matches Some(d)) ==> (obstacle_footprint(b, q).contains(p) <==> {
            let (dx, dy, dz) = direction_delta(facing_of(b).unwrap());
            p == q || p == (q.0 + 2 * dx, q.1 + 2 * dy, q.2 + 2 * dz)
        }),
        b.name == "minecraft:calcite"@ || b.name == "minecraft:redstone_lamp"@ || b.name == "minecraft:target"@
            ==> (obstacle_footprint(b, q).contains(p) <==> p == q),
{
    reveal_strlit("minecraft:redstone_wire");
    reveal_strlit("minecraft:redstone_torch");
    reveal_strlit("minecraft:redstone_wall_torch");
    reveal_strlit("minecraft:lever");
    reveal_strlit("minecraft:repeater");
    reveal_strlit("minecraft:piston");
    reveal_strlit("minecraft:sticky_piston");
    reveal_strlit("minecraft:calcite");
    reveal_strlit("minecraft:redstone_lamp");
    reveal_strlit("minecraft:target");
    assert("minecraft:redstone_wire"@.len() == 23 && "minecraft:redstone_torch"@.len() == 24
        && "minecraft:redstone_wall_torch"@.len() == 29 && "minecraft:lever"@.len() == 15
        && "minecraft:repeater"@.len() == 18 && "minecraft:piston"@.len() == 16
        && "minecraft:sticky_piston"@.len() == 23 && "minecraft:calcite"@.len() == 17
        && "minecraft:redstone_lamp"@.len() == 23 && "minecraft:target"@.len() == 16);
    // Names of equal length differ at these letters.
    assert("minecraft:redstone_wire"@[19] == 'w' && "minecraft:redstone_lamp"@[19] == 'l');
    assert("minecraft:sticky_piston"@[10] == 's' && "minecraft:redstone_wire"@[10] == 'r'
        && "minecraft:redstone_lamp"@[10] == 'r');
    assert("minecraft:target"@[10] == 't' && "minecraft:piston"@[10] == 'p');
    let f = obstacle_footprint(b, q);
    let n = step(q, Direction::North);
    let so = step(q, Direction::South);
    let e = step(q, Direction::East);
    let w = step(q, Direction::West);
    let u = step(q, Direction::Up);
    let dn = step(q, Direction::Down);
    if b.name == "minecraft:redstone_wire"@ {
        assert(f =~= seq![q, n, so, e, w]);
        assert(f[0] == q && f[1] == n && f[2] == so && f[3] == e && f[4] == w);
    } else if b.name == "minecraft:redstone_torch"@ || b.name == "minecraft:redstone_wall_torch"@ || b.name == "minecraft:lever"@ {
        assert(f =~= seq![q, n, so, e, w, u, dn]);
        assert(f[0] == q && f[1] == n && f[2] == so && f[3] == e && f[4] == w && f[5] == u && f[6] == dn);
        if block_dist(p, q) <= 1 {
            assert(p == q || p == n || p == so || p == e || p == w || p == u || p == dn);
        }
    } else if b.name == "minecraft:repeater"@ {
        if facing_of(b) matches Some(d) && crate::wire_segment::is_planar(d) {
            assert(f =~= seq![q, n, so]);
            assert(f[0] == q && f[1] == n && f[2] == so);
            if p.0 == q.0 && p.1 == q.1 && int_dist(p.2, q.2) <= 1 {
                assert(p == q || p == n || p == so);
            }
        }
    } else if is_piston_name(b.name) {
        if facing_of(b) is Some {
            let d = facing_of(b).unwrap();
            let t = step(step(q, d), d);
            assert(f =~= seq![q, t]);
            assert(f[0] == q && f[1] == t);
        }
    } else if b.name == "minecraft:calcite"@ || b.name == "minecraft:redstone_lamp"@ || b.name == "minecraft:target"@ {
        assert(f =~= seq![q]);
        assert(f[0] == q);
        if f.contains(p) {
            let i = choose|i: int| 0 <= i < f.len() && f[i] == p;
            assert(i == 0);
        }
    }
}

/// The palette index of the `i`-th block in storage order.
pub open spec fn block_at(v: BlockStorageView, i: int) -> BlockTypeIndex {
    let c = v.coords_of(i);
    v.at(c.0, c.1, c.2)
}

/// The block positions the `i`-th block keeps wires out of.
pub open spec fn block_obstacles(v: BlockStorageView, i: int) -> Seq<(int, int, int)> {
    let t = block_at(v, i);
    if t.0 < v.palette.len() {
        obstacle_footprint(v.palette[t.0 as int], v.coords_of(i))
    } else {
        seq![]
    }
}

/// Whether the block at `p` is of a sticky type.
pub open spec fn sticky_at(v: BlockStorageView, p: (int, int, int)) -> bool {
    &&& v.in_bounds(p.0, p.1, p.2)
    &&& v.at(p.0, p.1, p.2).0 < v.palette.len()
    &&& is_sticky_name(v.palette[v.at(p.0, p.1, p.2).0 as int].name)
}

/// The error the `i`-th block raises, if any: an unknown block type, a pin sign with an
/// unreadable rotation, or a piston facing a sticky block.
pub open spec fn block_error(v: BlockStorageView, i: int) -> Option<RouterError> {
    let t = block_at(v, i);
    if t.0 >= v.palette.len() {
        Some(RouterError::UnknownBlockType(t))
    } else {
        let b = v.palette[t.0 as int];
        if b.name == "minecraft:oak_sign"@ {
            match sign_direction(b) {
                Err(e) => Some(e),
                Ok(_) => None,
            }
        } else if is_piston_name(b.name) {
            match facing_of(b) {
                Some(d) => if sticky_at(v, crate::detail_routing::step(v.coords_of(i), d)) {
                    Some(RouterError::StickyBlockUnsupported)
                } else {
                    None
                },
                None => None,
            }
        } else {
            None
        }
    }
}

/// The first error raised by the first `i` blocks, in storage order.
pub open spec fn first_block_error(v: BlockStorageView, i: int) -> Option<RouterError>
    decreases i,
{
    if i <= 0 {
        None
    } else {
        match first_block_error(v, i - 1) {
            Some(e) => Some(e),
            None => block_error(v, i - 1),
        }
    }
}

/// The pins known after the first `i` blocks: each pin sign records, at its grid cell, the
/// direction of its rotation; later signs win.
pub open spec fn pins_after(v: BlockStorageView, i: int, init: Map<(int, int, int), Direction>) -> Map<(int, int, int), Direction>
    decreases i,
{
    if i <= 0 {
        init
    } else {
        let m = pins_after(v, i - 1, init);
        let t = block_at(v, i - 1);
        if t.0 < v.palette.len() && v.palette[t.0 as int].name == "minecraft:oak_sign"@ {
            match (grid_of(v.coords_of(i - 1)), sign_direction(v.palette[t.0 as int])) {
                (Some(g), Ok(d)) => m.insert(g, d),
                _ => m,
            }
        } else {
            m
        }
    }
}

/// Some position of `ps` lies in grid cell `g`.
pub open spec fn covers(ps: Seq<(int, int, int)>, g: (int, int, int)) -> bool {
    exists|k: int| 0 <= k < ps.len() && grid_of(#[trigger] ps[k]) == Some(g)
}

/// Some block among the first `i` keeps wires out of grid cell `g`.
pub open spec fn marked_before(v: BlockStorageView, i: int, g: (int, int, int)) -> bool {
    exists|j: int| 0 <= j < i && #[trigger] covers(block_obstacles(v, j), g)
}

/// Mark the grid cell holding block position `p` as blocked, if it is on the grid.
fn mark_blocked(router: &mut DetailRouter, p: Position)
    requires
        old(router).wf(),
    ensures
        final(router).wf(),
        final(router)@.size == old(router)@.size,
        forall|g: (int, int, int)| old(router)@.contains(g) ==> #[trigger] final(router)@.cells[g]
            == if grid_of(pos_key(p)) == Some(g) { GridCell::Blocked } else { old(router)@.cells[g] },
{
    match GridCellPosition::from_block_position(p) {
        Ok(g) => {
            match router.get_cell_mut(g) {
                Ok(c) => {
                    *c = GridCell::Blocked;
                },
                Err(_) => {},
            }
        },
        Err(_) => {},
    }
}

/// Mark the grid cells holding the block positions `ps` as blocked, where on the grid.
fn mark_all_blocked(router: &mut DetailRouter, ps: &Vec<Position>)
    requires
        old(router).wf(),
    ensures
        final(router).wf(),
        final(router)@.size == old(router)@.size,
        forall|g: (int, int, int)| old(router)@.contains(g) ==> #[trigger] final(router)@.cells[g]
            == if covers(ps@.map_values(|p: Position| pos_key(p)), g) { GridCell::Blocked } else { old(router)@.cells[g] },
{
    let ghost keys = ps@.map_values(|p: Position| pos_key(p));
    let n = ps.len();
    let mut k: usize = 0;
    while k < n
        invariant
            n == ps@.len(),
            keys == ps@.map_values(|p: Position| pos_key(p)),
            k <= n,
            router.wf(),
            router@.size == old(router)@.size,
            forall|g: (int, int, int)| old(router)@.contains(g) ==> old(router)@.contains(g) == router@.contains(g),
            forall|g: (int, int, int)| old(router)@.contains(g) ==> #[trigger] router@.cells[g]
                == if covers(keys.take(k as int), g) { GridCell::Blocked } else { old(router)@.cells[g] },
        decreases n - k,
    {
        let ghost before = router@;
        mark_blocked(router, ps[k]);
        proof {
            assert forall|g: (int, int, int)| old(router)@.contains(g) implies #[trigger] router@.cells[g]
                == if covers(keys.take(k + 1), g) { GridCell::Blocked } else { old(router)@.cells[g] } by {
                if covers(keys.take(k + 1), g) && !covers(keys.take(k as int), g) {
                    let w = choose|w: int| 0 <= w < keys.take(k + 1).len() && grid_of(#[trigger] keys.take(k + 1)[w]) == Some(g);
                    if w < k {
                        assert(keys.take(k as int)[w] == keys.take(k + 1)[w]);
                    }
                }
                if covers(keys.take(k as int), g) {
                    let w = choose|w: int| 0 <= w < keys.take(k as int).len() && grid_of(#[trigger] keys.take(k as int)[w]) == Some(g);
                    assert(keys.take(k + 1)[w] == keys.take(k as int)[w]);
                }
                if grid_of(pos_key(ps[k as int])) == Some(g) {
                    assert(keys.take(k + 1)[k as int] == pos_key(ps[k as int]));
                }
            }
        }
        k = k + 1;
    }
    proof {
        assert(keys.take(n as int) =~= keys);
    }
}

/// Coordinates small enough that a few steps in any direction stay inside `i32`.
pub open spec fn small_position(p: Position) -> bool {
    -0x4000_0000 < p.x < 0x4000_0000 && -0x4000_0000 < p.y < 0x4000_0000 && -0x4000_0000 < p.z < 0x4000_0000
}

/// The block positions that `block` at `pos` keeps wires out of.
#[verifier::rlimit(40)]
fn obstacle_positions(block: &Block, pos: Position) -> (r: Vec<Position>)
    requires
        block.wf(),
        small_position(pos),
    ensures
        r@.map_values(|p: Position| pos_key(p)) == obstacle_footprint(block@, pos_key(pos)),
{
    let name = block.name.as_str();
    let ghost q = pos_key(pos);
    let mut r: Vec<Position> = Vec::new();
    if str_eq(name, "minecraft:redstone_wire") {
        r.push(pos);
        r.push(pos.offset(Direction::North));
        r.push(pos.offset(Direction::South));
        r.push(pos.offset(Direction::East));
        r.push(pos.offset(Direction::West));
        proof {
            let ds = seq![Direction::North, Direction::South, Direction::East, Direction::West];
            assert(r@.map_values(|p: Position| pos_key(p)) =~= with_neighbours(q, ds));
        }
    } else if str_eq(name, "minecraft:redstone_torch") || str_eq(name, "minecraft:redstone_wall_torch")
        || str_eq(name, "minecraft:lever") {
        r.push(pos);
        r.push(pos.offset(Direction::North));
        r.push(pos.offset(Direction::South));
        r.push(pos.offset(Direction::East));
        r.push(pos.offset(Direction::West));
        r.push(pos.offset(Direction::Up));
        r.push(pos.offset(Direction::Down));
        proof {
            assert(r@.map_values(|p: Position| pos_key(p)) =~= with_neighbours(q, crate::block_storage::spec_all_directions()));
        }
    } else if str_eq(name, "minecraft:repeater") {
        r.push(pos);
        match block_facing(block) {
            Some(Direction::North) | Some(Direction::South) | Some(Direction::East) | Some(Direction::West) => {
                r.push(pos.offset(Direction::North));
                r.push(pos.offset(Direction::South));
                proof {
                    let ds = seq![Direction::North, Direction::South];
                    assert(r@.map_values(|p: Position| pos_key(p)) =~= with_neighbours(q, ds));
                }
            },
            _ => {
                proof {
                    assert(r@.map_values(|p: Position| pos_key(p)) =~= seq![q]);
                }
            },
        }
    } else if str_eq(name, "minecraft:piston") || str_eq(name, "minecraft:sticky_piston") {
        r.push(pos);
        match block_facing(block) {
            Some(d) => {
                let po = pos.offset(d);
                r.push(po.offset(d));
            },
            None => {},
        }
        proof {
            assert(r@.map_values(|p: Position| pos_key(p)) =~= obstacle_footprint(block@, q));
        }
    } else if str_eq(name, "minecraft:calcite") || str_eq(name, "minecraft:redstone_lamp")
        || str_eq(name, "minecraft:target") || ends_with(name, "_wool") {
        r.push(pos);
        proof {
            assert(r@.map_values(|p: Position| pos_key(p)) =~= seq![q]);
        }
    } else {
        proof {
            assert(r@.map_values(|p: Position| pos_key(p)) =~= Seq::<(int, int, int)>::empty());
        }
    }
    r
}

/// Whether a piston at `pos` facing `d` faces a sticky block.
fn faces_sticky(output: &BlockStorage, pos: Position, d: Direction) -> (r: bool)
    requires
        output.wf(),
        small_position(pos),
    ensures
        r == sticky_at(output@, crate::detail_routing::step(pos_key(pos), d)),
{
    let po = pos.offset(d);
    if po.x >= 0 && po.y >= 0 && po.z >= 0 {
        match output.get_block(po.x as u32, po.y as u32, po.z as u32) {
            Ok(bt) => match output.info_for_index(*bt) {
                Some(b) => b.is_sticky(),
                None => false,
            },
            Err(_) => false,
        }
    } else {
        false
    }
}

/// Walk all blocks of `output` in storage order, marking on the routing grid the cells that
/// blocks keep wires out of, and recording the pins that pin signs mark.
///
/// Stops at the first block that raises an error (see [`block_error`]).
#[verifier::rlimit(60)]
pub fn mark_obstacles_and_pins(output: &BlockStorage, router: &mut DetailRouter, pins: &mut KnownPins) -> (r: Result<(), RouterError>)
    requires
        output.wf(),
        old(router).wf(),
        old(pins).wf(),
        output@.extents.0 < 0x4000_0000,
        output@.extents.1 < 0x4000_0000,
        output@.extents.2 < 0x4000_0000,
    ensures
        final(router).wf(),
        final(pins).wf(),
        final(router)@.size == old(router)@.size,
        match r {
            Ok(()) => first_block_error(output@, output@.volume() as int) is None
                && (forall|g: (int, int, int)| old(router)@.contains(g) ==> #[trigger] final(router)@.cells[g]
                    == if marked_before(output@, output@.volume() as int, g) { GridCell::Blocked } else { old(router)@.cells[g] })
                && final(pins)@ == pins_after(output@, output@.volume() as int, old(pins)@),
            Err(e) => first_block_error(output@, output@.volume() as int) == Some(e),
        },
{
    let ghost v = output@;
    let ghost r0 = router@;
    let ghost p0 = pins@;
    let n = output.len();
    let mut it = output.iter_block_coords();
    let mut i: usize = 0;
    while i < n
        invariant
            output.wf(),
            v == output@,
            n == v.volume(),
            v.extents.0 < 0x4000_0000,
            v.extents.1 < 0x4000_0000,
            v.extents.2 < 0x4000_0000,
            it.wf(),
            it.storage() == v,
            it.position() == i,
            i <= n,
            router.wf(),
            pins.wf(),
            router@.size == r0.size,
            r0 == old(router)@,
            p0 == old(pins)@,
            forall|g: (int, int, int)| r0.contains(g) == router@.contains(g),
            first_block_error(v, i as int) is None,
            forall|g: (int, int, int)| r0.contains(g) ==> #[trigger] router@.cells[g]
                == if marked_before(v, i as int, g) { GridCell::Blocked } else { r0.cells[g] },
            pins@ == pins_after(v, i as int, p0),
        decreases n - i,
    {
        let ghost rb = router@;
        let ghost c = v.coords_of(i as int);
        match it.next() {
            Some(((x, y, z), t)) => {
                proof {
                    assert(first_block_error(v, i + 1) == block_error(v, i as int));
                }
                let block = match output.info_for_index(t) {
                    Some(b) => b,
                    None => {
                        proof { lemma_first_block_error_persists(v, i + 1, n as int); }
                        return Err(RouterError::UnknownBlockType(t));
                    },
                };
                let pos = Position::new(x as i32, y as i32, z as i32);
                proof {
                    assert(pos_key(pos) == c);
                    assert(block@ == v.palette[t.0 as int]);
                }
                if str_eq(block.name.as_str(), "minecraft:oak_sign") {
                    let grid_cell = match GridCellPosition::from_block_position(pos) {
                        Ok(g) => g,
                        Err(e) => return Err(RouterError::PinPosition(e)),
                    };
                    let d = match sign_pin_direction(block) {
                        Ok(d) => d,
                        Err(e) => {
                            proof { lemma_first_block_error_persists(v, i + 1, n as int); }
                            return Err(e);
                        },
                    };
                    pins.insert(grid_cell, d);
                } else if str_eq(block.name.as_str(), "minecraft:piston") || str_eq(block.name.as_str(), "minecraft:sticky_piston") {
                    match block_facing(block) {
                        Some(d) => {
                            if faces_sticky(output, pos, d) {
                                proof { lemma_first_block_error_persists(v, i + 1, n as int); }
                                return Err(RouterError::StickyBlockUnsupported);
                            }
                        },
                        None => {},
                    }
                }
                let fp = obstacle_positions(block, pos);
                mark_all_blocked(router, &fp);
                proof {
                    let fk = fp@.map_values(|p: Position| pos_key(p));
                    assert(fk == block_obstacles(v, i as int));
                    assert forall|g: (int, int, int)| r0.contains(g) implies #[trigger] router@.cells[g]
                        == if marked_before(v, i + 1, g) { GridCell::Blocked } else { r0.cells[g] } by {
                        if covers(fk, g) {
                            assert(covers(block_obstacles(v, i as int), g));
                            assert(marked_before(v, i + 1, g));
                        } else if marked_before(v, i + 1, g) {
                            let j = choose|j: int| 0 <= j < i + 1 && #[trigger] covers(block_obstacles(v, j), g);
                            assert(j != i);
                            assert(marked_before(v, i as int, g));
                        } else {
                            assert(!marked_before(v, i as int, g)) by {
                                if marked_before(v, i as int, g) {
                                    let j = choose|j: int| 0 <= j < i && #[trigger] covers(block_obstacles(v, j), g);
                                    assert(0 <= j < i + 1);
                                }
                            }
                        }
                    }
                }
            },
            None => {},
        }
        i = i + 1;
    }
    Ok(())
}

proof fn lemma_first_block_error_persists(v: BlockStorageView, i: int, n: int)
    requires
        0 <= i <= n,
        first_block_error(v, i) is Some,
    ensures
        first_block_error(v, n) == first_block_error(v, i),
    decreases n - i,
{
    if i < n {
        lemma_first_block_error_persists(v, i, n - 1);
    }
}

/// How far the routing of a net has got.
#[derive(Clone, Copy, Debug, PartialEq, Eq, Structural)]
pub enum NetState {
    Unrouted,
    RippedUpInPass(u32),
    Routed,
}

/// Number of rip-up and reroute passes.
pub const MAX_ROUTING_PASSES: u32 = 30;

/// The grid cell of a pin.
pub open spec fn pin_grid(p: Pin) -> GridCellPosition {
    let g = grid_of((p.x as int, p.y as int, p.z as int)).unwrap();
    GridCellPosition { x: g.0 as i32, y: g.1 as i32, z: g.2 as i32 }
}

/// Pins whose coordinates are small enough for the grid arithmetic.
pub open spec fn small_pin(p: Pin) -> bool {
    p.x < 0x4000_0000 && p.y < 0x4000_0000 && p.z < 0x4000_0000
}

/// The grid cell of pin `p`.
fn pin_grid_position(p: Pin) -> (r: GridCellPosition)
    requires
        small_pin(p),
    ensures
        r == pin_grid(p),
        -0x2000_0000 <= r.x < 0x2000_0000,
        -0x2000_0000 <= r.y < 0x2000_0000,
        -0x2000_0000 <= r.z < 0x2000_0000,
{
    let pos = Position::new(p.x as i32, p.y as i32, p.z as i32);
    match GridCellPosition::from_block_position(pos) {
        Ok(g) => g,
        Err(_) => GridCellPosition::new(0, 0, 0),
    }
}

/// The state of the whole routing job: the netlist, its nets in increasing number order with
/// their states, the known pins, and the detail routing grid.
pub struct Router<'nets> {
    pub netlist: &'nets Netlist,
    pub nets: Vec<(i64, &'nets Net)>,
    pub net_states: Vec<NetState>,
    pub known_pins: KnownPins,
    pub detail_router: DetailRouter,
    pub routing_pass: u32,
}

impl<'nets> Router<'nets> {
    /// `nets` lists the nets of the netlist in increasing order of number, each net has a
    /// state, and the grid is small enough to be searched.
    pub open spec fn wf(&self) -> bool {
        &&& self.netlist.wf()
        &&& self.detail_router.wf()
        &&& self.known_pins.wf()
        &&& self.net_states@.len() == self.nets@.len()
        &&& forall|i: int| 0 <= i < self.nets@.len() ==> self.netlist@.nets.contains_key(#[trigger] self.nets@[i].0)
            && self.netlist@.nets[self.nets@[i].0] == self.nets@[i].1@
        &&& forall|k: i64| #[trigger] self.netlist@.nets.contains_key(k) ==> exists|i: int| 0 <= i < self.nets@.len() && self.nets@[i].0 == k
        &&& forall|i: int, j: int| 0 <= i < j < self.nets@.len() ==> self.nets@[i].0 < self.nets@[j].0
        &&& forall|i: int| 0 <= i < self.netlist@.pins.len() ==> small_pin(#[trigger] self.netlist@.pins[i])
    }
}

/// What routing the `k`-th net, net `net` with number `number` (see [`Router::route_net`]),
/// does to grid `g0` and net states `st0`, giving grid `g1`, net states `st1` and result `r`.
pub open spec fn route_net_outcome(pins: Seq<Pin>, number: i64, net: NetView, known: Map<(int, int, int), Direction>,
    pass: u32, k: int, g0: DetailRouterView, st0: Seq<NetState>, g1: DetailRouterView, st1: Seq<NetState>,
    r: Result<(), RouterError>) -> bool
{
    &&& g1.size == g0.size
    &&& st1.len() == st0.len()
    &&& forall|j: int| 0 <= j < st0.len() && j != k ==> #[trigger] st1[j] == st0[j]
    &&& (r matches Err(e) ==> !(e is NetIndexOutOfRange))
    &&& ({
        let st = st0[k];
        let id = RouteId(number as u32);
        if skips_routing(st, pass) || net.drivers.len() == 0 {
            r is Ok && g1 == g0 && st1 == st0
        } else if net.drivers.len() > 1 {
            r == Err::<(), RouterError>(RouterError::DriverConflict) && g1 == g0 && st1 == st0
        } else {
            let start = pin_grid(pins[net.drivers[0] as int]);
            if !g0.contains(start.key()) {
                r == Err::<(), RouterError>(RouterError::Routing(RoutingError::OutOfBounds {
                    pos: start,
                    bounds: (g0.size.0 as i32, g0.size.1 as i32, g0.size.2 as i32),
                })) && g1 == g0 && st1 == st0
            } else if !known.contains_key(start.key()) {
                r == Err::<(), RouterError>(RouterError::PinNotFound(start)) && g1 == g0 && st1 == st0
            } else {
                exists|gs: Seq<DetailRouterView>, outs: Seq<Result<(), RoutingError>>| {
                    &&& gs[0] == blocked_at(g0, start)
                    &&& sink_walk(pins, known, net.sinks, start, known[start.key()], id, gs, outs)
                    &&& match r {
                        Ok(()) => outs.len() == net.sinks.len() && g1 == gs.last()
                            && st1[k] == if all_routed(outs) { NetState::Routed } else { st },
                        Err(e) => sink_fails(pins, known, net.sinks, start, known[start.key()], id, gs, outs, e),
                    }
                }
            }
        }
    })
}

/// Whether a net in state `st` is left alone in routing pass `pass`.
pub open spec fn skips_routing(st: NetState, pass: u32) -> bool {
    st == NetState::Routed || st == NetState::RippedUpInPass(pass)
}

/// Grid `g` with the cell at `p` blocked.
pub open spec fn blocked_at(g: DetailRouterView, p: GridCellPosition) -> DetailRouterView {
    DetailRouterView { cells: g.cells.insert(p.key(), GridCell::Blocked), ..g }
}

/// Routing a net's sinks one after the other, starting from grid `gs[0]`: for the `j`-th
/// sink, its cell is on the grid and a known pin; the grid with that cell blocked is routed,
/// from the sink to the driver at `start`, to grid `gs[j + 1]` with result `outs[j]`, which
/// is a success or an unroutable net.
pub open spec fn sink_walk(pins: Seq<Pin>, known: Map<(int, int, int), Direction>, sinks: Seq<u32>,
    start: GridCellPosition, start_direction: Direction, id: RouteId, gs: Seq<DetailRouterView>,
    outs: Seq<Result<(), RoutingError>>) -> bool
{
    &&& gs.len() == outs.len() + 1
    &&& outs.len() <= sinks.len()
    &&& forall|j: int| 0 <= j < outs.len() ==> {
        let end = pin_grid(pins[sinks[j] as int]);
        &&& gs[j].contains(end.key())
        &&& known.contains_key(end.key())
        &&& route_outcome(blocked_at(gs[j], end), gs[j + 1], start, start_direction, end, known[end.key()], id, #[trigger] outs[j])
        &&& (outs[j] is Ok || outs[j] == Err::<(), RoutingError>(RoutingError::Unroutable))
    }
}

/// How routing the next sink, the `outs.len()`-th, fails with error `e` after the sink walk
/// `gs`, `outs`: its cell is off the grid, it is not a known pin, or the route itself fails
/// other than as unroutable.
pub open spec fn sink_fails(pins: Seq<Pin>, known: Map<(int, int, int), Direction>, sinks: Seq<u32>,
    start: GridCellPosition, start_direction: Direction, id: RouteId, gs: Seq<DetailRouterView>,
    outs: Seq<Result<(), RoutingError>>, e: RouterError) -> bool
{
    let j = outs.len() as int;
    let end = pin_grid(pins[sinks[j] as int]);
    let g = gs.last();
    &&& j < sinks.len()
    &&& if !g.contains(end.key()) {
        e == RouterError::Routing(RoutingError::OutOfBounds {
            pos: end,
            bounds: (g.size.0 as i32, g.size.1 as i32, g.size.2 as i32),
        })
    } else if !known.contains_key(end.key()) {
        e == RouterError::PinNotFound(end)
    } else {
        exists|after: DetailRouterView, re: RoutingError| route_outcome(blocked_at(g, end), after, start, start_direction, end, known[end.key()], id, Err(re))
            && re != RoutingError::Unroutable && e == RouterError::Routing(re)
    }
}

/// Every result of `outs` is a success.
pub open spec fn all_routed(outs: Seq<Result<(), RoutingError>>) -> bool {
    forall|j: int| 0 <= j < outs.len() ==> (#[trigger] outs[j]) is Ok
}

impl<'nets> Router<'nets> {
    /// Route the `k`-th net (in number order) from its driver to each of its sinks, unless it
    /// is routed already or was ripped up in this pass. The driver's and each sink's cell are
    /// blocked before routing; the net counts as routed once every sink routed. A net without
    /// a driver is left alone; a net with several drivers is an error.
    #[verifier::rlimit(80)]
    pub fn route_net(&mut self, k: usize) -> (r: Result<(), RouterError>)
        requires
            old(self).wf(),
            k < old(self).nets@.len(),
            0 <= old(self).nets@[k as int].0 <= u32::MAX,
        ensures
            final(self).wf(),
            final(self).netlist == old(self).netlist,
            final(self).nets == old(self).nets,
            final(self).routing_pass == old(self).routing_pass,
            final(self).known_pins@ == old(self).known_pins@,
            final(self).detail_router@.size == old(self).detail_router@.size,
            route_net_outcome(old(self).netlist@.pins, old(self).nets@[k as int].0, old(self).nets@[k as int].1@, old(self).known_pins@,
                old(self).routing_pass, k as int, old(self).detail_router@, old(self).net_states@, final(self).detail_router@, final(self).net_states@, r),
    {
        let ghost g0 = self.detail_router@;
        let ghost st0 = self.net_states@;
        let (net_idx, net) = self.nets[k];
        let st = self.net_states[k];
        match st {
            NetState::RippedUpInPass(p) => {
                if p == self.routing_pass {
                    return Ok(());
                }
            },
            NetState::Routed => return Ok(()),
            _ => {},
        }
        proof {
            self.netlist.lemma_wf_nets();
            assert(net_fits(net@, self.netlist@.pins.len()));
        }
        let drivers = net.iter_drivers(self.netlist);
        if drivers.len() == 0 {
            return Ok(());
        }
        if drivers.len() > 1 {
            return Err(RouterError::DriverConflict);
        }
        let id = RouteId(net_idx as u32);
        proof {
            assert(drivers@[0] == self.netlist@.pins[net@.drivers[0] as int]);
        }
        let start = pin_grid_position(drivers[0]);
        match self.detail_router.get_cell(start) {
            Err(e) => return Err(RouterError::Routing(e)),
            Ok(_) => {},
        }
        let start_direction = match self.known_pins.get(start) {
            Some(d) => d,
            None => return Err(RouterError::PinNotFound(start)),
        };
        let _ = self.detail_router.set_cell(start, GridCell::Blocked);
        proof {
            assert(self.detail_router@ == blocked_at(g0, start));
            assert(self.detail_router@.size == g0.size);
            assert(self.netlist.wf());
            assert(self.detail_router.wf());
            assert(self.known_pins.wf());
            assert(self.net_states@.len() == self.nets@.len());
        }
        let ghost known = self.known_pins@;
        let ghost pins = self.netlist@.pins;
        let sinks = net.iter_sinks(self.netlist);
        let ghost mut gs: Seq<DetailRouterView> = seq![self.detail_router@];
        let ghost mut outs: Seq<Result<(), RoutingError>> = Seq::empty();
        let mut all_ok = true;
        let n = sinks.len();
        let mut j: usize = 0;
        while j < n
            invariant
                self.wf(),
                self.netlist == old(self).netlist,
                self.nets == old(self).nets,
                self.routing_pass == old(self).routing_pass,
                self.known_pins@ == known,
                known == old(self).known_pins@,
                self.net_states@ == st0,
                st0 == old(self).net_states@,
                pins == self.netlist@.pins,
                g0 == old(self).detail_router@,
                !skips_routing(st0[k as int], old(self).routing_pass),
                net@.drivers.len() == 1,
                start == pin_grid(pins[net@.drivers[0] as int]),
                g0.contains(start.key()),
                known.contains_key(start.key()),
                start_direction == known[start.key()],
                k < st0.len(),
                self.detail_router@.size == g0.size,
                n == sinks@.len(),
                sinks@ == net@.sinks.map_values(|i: u32| pins[i as int]),
                net@ == old(self).nets@[k as int].1@,
                id == RouteId(old(self).nets@[k as int].0 as u32),
                net_fits(net@, pins.len()),
                -0x2000_0000 <= start.x < 0x2000_0000,
                -0x2000_0000 <= start.y < 0x2000_0000,
                -0x2000_0000 <= start.z < 0x2000_0000,
                j <= n,
                gs.len() == j + 1,
                outs.len() == j,
                gs[0] == blocked_at(g0, start),
                sink_walk(pins, known, net@.sinks, start, start_direction, id, gs, outs),
                self.detail_router@ == gs.last(),
                all_ok == all_routed(outs),
            decreases n - j,
        {
            let end = pin_grid_position(sinks[j]);
            proof {
                assert(sinks@[j as int] == pins[net@.sinks[j as int] as int]);
            }
            match self.detail_router.get_cell(end) {
                Err(e) => {
                    proof {
                        assert(sink_fails(pins, known, net@.sinks, start, start_direction, id, gs, outs, RouterError::Routing(e)));
                    }
                    return Err(RouterError::Routing(e));
                },
                Ok(_) => {},
            }
            let end_direction = match self.known_pins.get(end) {
                Some(d) => d,
                None => {
                    proof {
                        assert(sink_fails(pins, known, net@.sinks, start, start_direction, id, gs, outs, RouterError::PinNotFound(end)));
                    }
                    return Err(RouterError::PinNotFound(end));
                },
            };
            let _ = self.detail_router.set_cell(end, GridCell::Blocked);
            let ghost blocked = self.detail_router@;
            proof {
                assert(blocked == blocked_at(gs.last(), end));
            }
            let res = self.detail_router.route(start, start_direction, end, end_direction, id);
            let ghost after = self.detail_router@;
            let ghost mut o: Result<(), RoutingError> = Ok(());
            proof {
                o = res;
            }
            match res {
                Ok(()) => {},
                Err(RoutingError::Unroutable) => {
                    all_ok = false;
                },
                Err(e) => {
                    proof {
                        assert(route_outcome(blocked_at(gs.last(), end), after, start, start_direction, end, known[end.key()], id,
                            Err::<(), RoutingError>(e)));
                        assert(self.detail_router@.size == old(self).detail_router@.size);
                        assert(self.netlist.wf());
                        assert(self.known_pins.wf());
                        assert(self.net_states@.len() == self.nets@.len());
                    }
                    return Err(RouterError::Routing(e));
                },
            }
            proof {
                assert(o is Ok || o == Err::<(), RoutingError>(RoutingError::Unroutable));
                let gs2 = gs.push(after);
                let outs2 = outs.push(o);
                assert forall|t: int| 0 <= t < outs2.len() implies {
                    let e2 = pin_grid(pins[net@.sinks[t] as int]);
                    &&& gs2[t].contains(e2.key())
                    &&& known.contains_key(e2.key())
                    &&& route_outcome(blocked_at(gs2[t], e2), gs2[t + 1], start, start_direction, e2, known[e2.key()], id, #[trigger] outs2[t])
                    &&& (outs2[t] is Ok || outs2[t] == Err::<(), RoutingError>(RoutingError::Unroutable))
                } by {
                    if t < outs.len() {
                        assert(gs2[t] == gs[t]);
                        assert(gs2[t + 1] == gs[t + 1]);
                        assert(outs2[t] == outs[t]);
                    }
                }
                assert(all_ok == all_routed(outs2)) by {
                    if !all_routed(outs) {
                        let t = choose|t: int| 0 <= t < outs.len() && !((#[trigger] outs[t]) is Ok);
                        assert(outs2[t] == outs[t]);
                    }
                    if all_ok {
                        assert forall|t: int| 0 <= t < outs2.len() implies (#[trigger] outs2[t]) is Ok by {
                            if t < outs.len() {
                                assert(outs2[t] == outs[t]);
                            }
                        }
                    } else if all_routed(outs) {
                        assert(!(outs2[outs.len() as int] is Ok));
                    }
                }
                gs = gs2;
                outs = outs2;
            }
            j = j + 1;
        }
        if all_ok {
            self.net_states.set(k, NetState::Routed);
        }
        proof {
            assert(self.net_states@.len() == self.nets@.len());
            assert(outs.len() == net@.sinks.len());
        }
        Ok(())
    }
}

impl<'nets> Router<'nets> {
    /// Set up routing of `netlist` in `output`: a grid as wide and deep as the output (in wire
    /// cells of one block) with five layers per tier, the cells that the output's blocks keep
    /// wires out of marked as blocked (see [`mark_obstacles_and_pins`]), the pins found from the
    /// pin signs, and every net unrouted.
    pub fn new(tiers: u32, netlist: &'nets Netlist, output: &BlockStorage) -> (r: Result<Router<'nets>, RouterError>)
        requires
            output.wf(),
            netlist.wf(),
            output@.extents.0 < 0x4000_0000,
            output@.extents.1 < 0x4000_0000,
            output@.extents.2 < 0x4000_0000,
            tiers * 5 <= i32::MAX,
            output@.extents.0 * (tiers * 5) <= u32::MAX,
            output@.extents.0 * output@.extents.2 <= i32::MAX,
            output@.extents.0 * (tiers * 5) * output@.extents.2 <= u32::MAX,
            forall|i: int| 0 <= i < netlist@.pins.len() ==> small_pin(#[trigger] netlist@.pins[i]),
        ensures
            match r {
                Ok(router) => {
                    &&& router.wf()
                    &&& router.netlist == netlist
                    &&& router.routing_pass == 0
                    &&& forall|i: int| 0 <= i < router.net_states@.len() ==> #[trigger] router.net_states@[i] == NetState::Unrouted
                    &&& router.detail_router@.size == (output@.extents.0 as int, (tiers * 5) as int, output@.extents.2 as int)
                    &&& forall|g: (int, int, int)| router.detail_router@.contains(g) ==> #[trigger] router.detail_router@.cells[g]
                        == if marked_before(output@, output@.volume() as int, g) { GridCell::Blocked } else { GridCell::Free }
                    &&& router.known_pins@ == pins_after(output@, output@.volume() as int, Map::empty())
                    &&& first_block_error(output@, output@.volume() as int) is None
                },
                Err(e) => first_block_error(output@, output@.volume() as int) == Some(e),
            },
    {
        let extents = output.extents();
        let size_x = extents[0] + (2 - 1) / 2;
        let size_y = tiers * 5;
        let size_z = extents[2] + (2 - 1) / 2;
        let mut detail_router = DetailRouter::new(size_x, size_y, size_z);
        let mut known_pins = KnownPins::new();
        mark_obstacles_and_pins(output, &mut detail_router, &mut known_pins)?;
        let nets = netlist.iter_nets();
        let mut net_states: Vec<NetState> = Vec::new();
        let mut i: usize = 0;
        while i < nets.len()
            invariant
                i <= nets@.len(),
                net_states@.len() == i,
                forall|j: int| 0 <= j < i ==> #[trigger] net_states@[j] == NetState::Unrouted,
            decreases nets@.len() - i,
        {
            net_states.push(NetState::Unrouted);
            i = i + 1;
        }
        let router = Router { netlist, nets, net_states, known_pins, detail_router, routing_pass: 0 };
        proof {
            assert(router.netlist.wf());
            assert(router.detail_router.wf());
            assert(router.known_pins.wf());
            assert(router.net_states@.len() == router.nets@.len());
            assert(router.detail_router@.size == (output@.extents.0 as int, (tiers * 5) as int, output@.extents.2 as int));
            assert(router.detail_router@.size.0 * router.detail_router@.size.1 * router.detail_router@.size.2 <= u32::MAX);
        }
        Ok(router)
    }
}

/// The largest x and z coordinates of any pin (0 when there are none).
pub open spec fn pin_extent(pins: Seq<Pin>) -> (int, int)
    decreases pins.len(),
{
    if pins.len() == 0 {
        (0, 0)
    } else {
        let (mx, mz) = pin_extent(pins.drop_last());
        let p = pins.last();
        (if p.x > mx { p.x as int } else { mx }, if p.z > mz { p.z as int } else { mz })
    }
}

/// An empty output covering every pin with a margin of four blocks along x and z, and
/// `tiers` tiers of sixteen blocks.
pub fn build_output(tiers: u32, netlist: &Netlist) -> (r: BlockStorage)
    requires
        tiers * 16 <= u32::MAX,
        forall|i: int| 0 <= i < netlist@.pins.len() ==> small_pin(#[trigger] netlist@.pins[i]),
        ({
            let (mx, mz) = pin_extent(netlist@.pins);
            &&& (mx + 4) * (tiers * 16) <= u32::MAX
            &&& (mx + 4) * (tiers * 16) * (mz + 4) <= u32::MAX
            &&& (mx + 4) * (mz + 4) <= u32::MAX
        }),
    ensures
        r.wf(),
        r@.extents == ((pin_extent(netlist@.pins).0 + 4) as nat, (tiers * 16) as nat, (pin_extent(netlist@.pins).1 + 4) as nat),
        r@.palette.len() == 1,
        r@.palette[0] == (BlockView { name: "minecraft:air"@, properties: None }),
        forall|x: int, y: int, z: int| r@.in_bounds(x, y, z) ==> #[trigger] r@.at(x, y, z) == BlockTypeIndex(0),
{
    let pins = netlist.iter_pins();
    let mut mx: u32 = 0;
    let mut mz: u32 = 0;
    let mut i: usize = 0;
    while i < pins.len()
        invariant
            pins@ == netlist@.pins,
            i <= pins@.len(),
            forall|j: int| 0 <= j < pins@.len() ==> small_pin(#[trigger] pins@[j]),
            (mx as int, mz as int) == pin_extent(pins@.take(i as int)),
            mx < 0x4000_0000,
            mz < 0x4000_0000,
        decreases pins@.len() - i,
    {
        let p = pins[i];
        proof {
            assert(pins@.take(i + 1).drop_last() =~= pins@.take(i as int));
            assert(small_pin(pins@[i as int]));
        }
        mx = if p.x > mx { p.x } else { mx };
        mz = if p.z > mz { p.z } else { mz };
        i = i + 1;
    }
    proof {
        assert(pins@.take(pins@.len() as int) =~= pins@);
    }
    BlockStorage::new(mx + 4, tiers * 16, mz + 4)
}

/// Grid `g` with each of the pin cells `ps` given back to net `id`, pointing in its pin's
/// direction.
pub open spec fn restore_pins(g: DetailRouterView, ps: Seq<GridCellPosition>, known: Map<(int, int, int), Direction>, id: RouteId) -> DetailRouterView
    decreases ps.len(),
{
    if ps.len() == 0 {
        g
    } else {
        let h = restore_pins(g, ps.drop_last(), known, id);
        DetailRouterView { cells: h.cells.insert(ps.last().key(), GridCell::Occupied(known[ps.last().key()], id)), ..h }
    }
}

/// The first pin cell of `ps` that is not a known pin on the grid, as an error.
pub open spec fn restore_error(g: DetailRouterView, ps: Seq<GridCellPosition>, known: Map<(int, int, int), Direction>) -> Option<RouterError>
    decreases ps.len(),
{
    if ps.len() == 0 {
        None
    } else {
        match restore_error(g, ps.drop_last(), known) {
            Some(e) => Some(e),
            None => {
                let p = ps.last();
                if !known.contains_key(p.key()) {
                    Some(RouterError::PinNotFound(p))
                } else if !g.contains(p.key()) {
                    Some(RouterError::Routing(RoutingError::OutOfBounds {
                        pos: p,
                        bounds: (g.size.0 as i32, g.size.1 as i32, g.size.2 as i32),
                    }))
                } else {
                    None
                }
            },
        }
    }
}

/// The pin cells of a net: its sinks, then its drivers.
pub open spec fn net_pin_cells(pins: Seq<Pin>, net: NetView) -> Seq<GridCellPosition> {
    net.sinks.map_values(|i: u32| pin_grid(pins[i as int])) + net.drivers.map_values(|i: u32| pin_grid(pins[i as int]))
}

proof fn lemma_restore_error_persists(g: DetailRouterView, ps: Seq<GridCellPosition>, known: Map<(int, int, int), Direction>, k: int)
    requires
        0 <= k <= ps.len(),
        restore_error(g, ps.take(k), known) is Some,
    ensures
        restore_error(g, ps, known) == restore_error(g, ps.take(k), known),
    decreases ps.len(),
{
    if k == ps.len() {
        assert(ps.take(k) =~= ps);
    } else {
        assert(ps.drop_last().take(k) =~= ps.take(k));
        lemma_restore_error_persists(g, ps.drop_last(), known, k);
    }
}

proof fn lemma_restore_error_kind(g: DetailRouterView, ps: Seq<GridCellPosition>, known: Map<(int, int, int), Direction>)
    ensures
        restore_error(g, ps, known) matches Some(e) ==> !(e is NetIndexOutOfRange),
    decreases ps.len(),
{
    if ps.len() > 0 {
        lemma_restore_error_kind(g, ps.drop_last(), known);
    }
}

proof fn lemma_restore_keeps_size(g: DetailRouterView, ps: Seq<GridCellPosition>, known: Map<(int, int, int), Direction>, id: RouteId)
    ensures
        restore_pins(g, ps, known, id).size == g.size,
        forall|p: (int, int, int)| restore_pins(g, ps, known, id).contains(p) == g.contains(p),
    decreases ps.len(),
{
    if ps.len() > 0 {
        lemma_restore_keeps_size(g, ps.drop_last(), known, id);
    }
}

impl<'nets> Router<'nets> {
    /// Rip up the `k`-th net: mark it ripped up in this pass, free every cell it holds, and
    /// give its pin cells (sinks, then drivers) back to it, pointing in the pins' directions.
    #[verifier::rlimit(40)]
    fn rip_up_net(&mut self, k: usize, id: RouteId) -> (r: Result<(), RouterError>)
        requires
            old(self).wf(),
            k < old(self).nets@.len(),
        ensures
            final(self).wf(),
            final(self).netlist == old(self).netlist,
            final(self).nets == old(self).nets,
            final(self).routing_pass == old(self).routing_pass,
            final(self).known_pins@ == old(self).known_pins@,
            final(self).detail_router@.size == old(self).detail_router@.size,
            final(self).net_states@ == old(self).net_states@.update(k as int, NetState::RippedUpInPass(old(self).routing_pass)),
            r matches Err(e) ==> !(e is NetIndexOutOfRange),
            ({
                let g = old(self).detail_router@.without_route(id);
                let ps = net_pin_cells(old(self).netlist@.pins, old(self).nets@[k as int].1@);
                match r {
                    Ok(()) => restore_error(g, ps, old(self).known_pins@) is None
                        && final(self).detail_router@ == restore_pins(g, ps, old(self).known_pins@, id),
                    Err(e) => restore_error(g, ps, old(self).known_pins@) == Some(e),
                }
            }),
    {
        let net = self.nets[k].1;
        proof {
            self.netlist.lemma_wf_nets();
            assert(self.netlist@.nets.contains_key(self.nets@[k as int].0));
            assert(net_fits(net@, self.netlist@.pins.len()));
        }
        let sinks = net.iter_sinks(self.netlist);
        let drivers = net.iter_drivers(self.netlist);
        let mut all: Vec<Pin> = sinks;
        let ghost s0 = all@;
        let mut t: usize = 0;
        while t < drivers.len()
            invariant
                all@ == s0 + drivers@.take(t as int),
                t <= drivers@.len(),
            decreases drivers@.len() - t,
        {
            all.push(drivers[t]);
            proof {
                assert(drivers@.take(t + 1) =~= drivers@.take(t as int).push(drivers@[t as int]));
                assert(all@ =~= s0 + drivers@.take(t + 1));
            }
            t = t + 1;
        }
        proof {
            assert(drivers@.take(drivers@.len() as int) =~= drivers@);
        }
        self.net_states.set(k, NetState::RippedUpInPass(self.routing_pass));
        let _ = self.detail_router.rip_up(id);
        proof {
            assert(self.detail_router@.size == old(self).detail_router@.size);
            assert(self.netlist.wf());
            assert(self.known_pins.wf());
            assert(self.net_states@.len() == self.nets@.len());
        }
        let ghost g = self.detail_router@;
        let ghost known = self.known_pins@;
        let ghost pins = self.netlist@.pins;
        let ghost ps = net_pin_cells(pins, net@);
        proof {
            assert(ps =~= all@.map_values(|p: Pin| pin_grid(p)));
        }
        let n = all.len();
        let mut i: usize = 0;
        while i < n
            invariant
                self.wf(),
                self.netlist == old(self).netlist,
                self.nets == old(self).nets,
                self.routing_pass == old(self).routing_pass,
                self.known_pins@ == known,
                known == old(self).known_pins@,
                pins == self.netlist@.pins,
                self.net_states@ == old(self).net_states@.update(k as int, NetState::RippedUpInPass(old(self).routing_pass)),
                g == old(self).detail_router@.without_route(id),
                g.size == old(self).detail_router@.size,
                net@ == old(self).nets@[k as int].1@,
                ps == net_pin_cells(pins, net@),
                ps == all@.map_values(|p: Pin| pin_grid(p)),
                forall|j: int| 0 <= j < all@.len() ==> small_pin(#[trigger] all@[j]),
                n == all@.len(),
                i <= n,
                restore_error(g, ps.take(i as int), known) is None,
                self.detail_router@ == restore_pins(g, ps.take(i as int), known, id),
            decreases n - i,
        {
            let pin = all[i];
            let pos = pin_grid_position(pin);
            proof {
                assert(ps.take(i + 1).drop_last() =~= ps.take(i as int));
                assert(ps.take(i + 1).last() == pos);
                lemma_restore_keeps_size(g, ps.take(i as int), known, id);
            }
            let pin_direction = match self.known_pins.get(pos) {
                Some(d) => d,
                None => {
                    proof {
                        lemma_restore_error_persists(g, ps, known, i + 1);
                        lemma_restore_error_kind(g, ps, known);
                    }
                    return Err(RouterError::PinNotFound(pos));
                },
            };
            match self.detail_router.set_cell(pos, GridCell::Occupied(pin_direction, id)) {
                Ok(()) => {},
                Err(e) => {
                    proof {
                        lemma_restore_error_persists(g, ps, known, i + 1);
                        lemma_restore_error_kind(g, ps, known);
                        assert(self.detail_router@.size == old(self).detail_router@.size);
                        assert(self.netlist.wf());
                        assert(self.known_pins.wf());
                        assert(self.net_states@.len() == self.nets@.len());
                    }
                    return Err(RouterError::Routing(e));
                },
            }
            proof {
                assert(self.detail_router@.size == g.size);
                assert(self.netlist.wf());
                assert(self.known_pins.wf());
                assert(self.net_states@.len() == self.nets@.len());
            }
            i = i + 1;
        }
        proof {
            assert(ps.take(n as int) =~= ps);
            lemma_restore_keeps_size(g, ps, known, id);
        }
        Ok(())
    }

    /// Whether some net is not routed yet.
    fn any_unrouted(&self) -> (r: bool)
        ensures
            r == exists|i: int| 0 <= i < self.net_states@.len() && #[trigger] self.net_states@[i] != NetState::Routed,
    {
        let mut i: usize = 0;
        while i < self.net_states.len()
            invariant
                i <= self.net_states@.len(),
                forall|j: int| 0 <= j < i ==> #[trigger] self.net_states@[j] == NetState::Routed,
            decreases self.net_states@.len() - i,
        {
            if self.net_states[i] != NetState::Routed {
                return true;
            }
            i = i + 1;
        }
        false
    }

    /// Rip-up and reroute: pass after pass, while some net is unrouted and fewer than
    /// [`MAX_ROUTING_PASSES`] passes have run, rip up the nets whose number plus the pass
    /// number is a multiple of 30 (except in the last pass), then route every net in number
    /// order (see [`rip_outcome`] and [`Router::route_net`]). Net numbers must fit in `u32`.
    #[verifier::rlimit(60)]
    pub fn rnr_loop(&mut self) -> (r: Result<(), RouterError>)
        requires
            old(self).wf(),
            forall|i: int| 0 <= i < old(self).nets@.len() ==> !(u32::MAX - 29 <= #[trigger] old(self).nets@[i].0 <= u32::MAX),
        ensures
            final(self).wf(),
            final(self).netlist == old(self).netlist,
            final(self).nets == old(self).nets,
            final(self).known_pins@ == old(self).known_pins@,
            final(self).detail_router@.size == old(self).detail_router@.size,
            ({
                let pins = old(self).netlist@.pins;
                let nets = net_views(old(self).nets@);
                let known = old(self).known_pins@;
                let init = RoutingState { grid: old(self).detail_router@, states: old(self).net_states@ };
                exists|ps: Seq<RoutingState>| {
                    &&& #[trigger] passes_run(pins, nets, known, init, ps)
                    &&& match r {
                        Ok(()) => {
                            &&& final(self).routing_pass == ps.len() - 1
                            &&& ps.last() == (RoutingState { grid: final(self).detail_router@, states: final(self).net_states@ })
                            &&& (ps.len() - 1 == MAX_ROUTING_PASSES || !some_unrouted(ps.last()))
                        },
                        Err(e) => {
                            &&& ps.len() - 1 < MAX_ROUTING_PASSES
                            &&& some_unrouted(ps.last())
                            &&& exists|after: RoutingState| #[trigger] pass_outcome(pins, nets, known, (ps.len() - 1) as u32,
                                ps.last(), after, Err::<(), RouterError>(e))
                        },
                    }
                }
            }),
    {
        let ghost pins = self.netlist@.pins;
        let ghost nets = net_views(self.nets@);
        let ghost known = self.known_pins@;
        let ghost init = RoutingState { grid: self.detail_router@, states: self.net_states@ };
        let ghost mut ps: Seq<RoutingState> = seq![init];
        self.routing_pass = 0;
        proof {
            assert(passes_run(pins, nets, known, init, ps));
        }
        while self.routing_pass < MAX_ROUTING_PASSES && self.any_unrouted()
            invariant
                self.wf(),
                self.netlist == old(self).netlist,
                self.nets == old(self).nets,
                self.known_pins@ == old(self).known_pins@,
                self.detail_router@.size == old(self).detail_router@.size,
                self.routing_pass <= MAX_ROUTING_PASSES,
                forall|i: int| 0 <= i < self.nets@.len() ==> !(u32::MAX - 29 <= #[trigger] self.nets@[i].0 <= u32::MAX),
                pins == old(self).netlist@.pins,
                nets == net_views(old(self).nets@),
                known == old(self).known_pins@,
                init == (RoutingState { grid: old(self).detail_router@, states: old(self).net_states@ }),
                passes_run(pins, nets, known, init, ps),
                ps.len() == self.routing_pass + 1,
                ps.last() == (RoutingState { grid: self.detail_router@, states: self.net_states@ }),
            ensures
                self.wf(),
                self.netlist == old(self).netlist,
                self.nets == old(self).nets,
                self.known_pins@ == old(self).known_pins@,
                self.detail_router@.size == old(self).detail_router@.size,
                passes_run(pins, nets, known, init, ps),
                ps.len() == self.routing_pass + 1,
                ps.last() == (RoutingState { grid: self.detail_router@, states: self.net_states@ }),
                self.routing_pass == MAX_ROUTING_PASSES || !some_unrouted(ps.last()),
            decreases MAX_ROUTING_PASSES - self.routing_pass,
        {
            let ghost pass = self.routing_pass;
            let ghost s0 = ps.last();
            proof {
                assert(some_unrouted(s0));
            }
            let n = self.nets.len();
            proof {
                assert(nets.len() == n);
            }
            let mut k: usize = 0;
            while k < n
                invariant
                    self.routing_pass == pass,
                    self.wf(),
                    self.netlist == old(self).netlist,
                    self.nets == old(self).nets,
                    self.known_pins@ == old(self).known_pins@,
                    self.detail_router@.size == old(self).detail_router@.size,
                    self.routing_pass < MAX_ROUTING_PASSES,
                    n == self.nets@.len(),
                    nets.len() == n,
                    k <= n,
                    forall|i: int| 0 <= i < k ==> 0 <= #[trigger] self.nets@[i].0 <= u32::MAX,
                    forall|i: int| 0 <= i < self.nets@.len() ==> !(u32::MAX - 29 <= #[trigger] self.nets@[i].0 <= u32::MAX),
                    pins == old(self).netlist@.pins,
                    nets == net_views(old(self).nets@),
                    known == old(self).known_pins@,
                    init == (RoutingState { grid: old(self).detail_router@, states: old(self).net_states@ }),
                    passes_run(pins, nets, known, init, ps),
                    ps.len() == pass + 1,
                    s0 == ps.last(),
                    some_unrouted(s0),
                    rip_phase(pins, nets, known, pass, s0, k as nat)
                        == Ok::<RoutingState, RouterError>(RoutingState { grid: self.detail_router@, states: self.net_states@ }),
                decreases n - k,
            {
                let number = self.nets[k].0;
                proof {
                    assert(nets[k as int] == (self.nets@[k as int].0, self.nets@[k as int].1@));
                }
                if number < 0 || number > 0xffff_ffff {
                    proof {
                        let e = RouterError::NetIndexOutOfRange(number);
                        assert(rip_phase(pins, nets, known, pass, s0, (k + 1) as nat) == Err::<RoutingState, RouterError>(e));
                        lemma_rip_phase_error_persists(pins, nets, known, pass, s0, (k + 1) as nat, n as nat, e);
                        assert(pass_outcome(pins, nets, known, (ps.len() - 1) as u32, ps.last(), s0, Err::<(), RouterError>(e)));
                        assert(passes_run(pins, nets, known, init, ps));
                    }
                    return Err(RouterError::NetIndexOutOfRange(number));
                }
                let net_idx = number as u32;
                if (self.routing_pass + net_idx) % 30 == 0 && self.routing_pass != MAX_ROUTING_PASSES - 1 {
                    match self.rip_up_net(k, RouteId(net_idx)) {
                        Ok(()) => {},
                        Err(e) => {
                            proof {
                                assert(rip_phase(pins, nets, known, pass, s0, (k + 1) as nat) == Err::<RoutingState, RouterError>(e));
                                lemma_rip_phase_error_persists(pins, nets, known, pass, s0, (k + 1) as nat, n as nat, e);
                                assert(pass_outcome(pins, nets, known, (ps.len() - 1) as u32, ps.last(), s0, Err::<(), RouterError>(e)));
                                assert(passes_run(pins, nets, known, init, ps));
                            }
                            return Err(e);
                        },
                    }
                }
                k = k + 1;
            }
            let ghost s1 = RoutingState { grid: self.detail_router@, states: self.net_states@ };
            let ghost mut ss: Seq<RoutingState> = seq![s1];
            let ghost mut rs: Seq<Result<(), RouterError>> = Seq::empty();
            proof {
                assert(routes_run(pins, nets, known, pass, s1, ss, rs));
            }
            let mut k: usize = 0;
            while k < n
                invariant
                    self.routing_pass == pass,
                    self.wf(),
                    self.netlist == old(self).netlist,
                    self.nets == old(self).nets,
                    self.known_pins@ == old(self).known_pins@,
                    self.detail_router@.size == old(self).detail_router@.size,
                    self.routing_pass < MAX_ROUTING_PASSES,
                    n == self.nets@.len(),
                    nets.len() == n,
                    k <= n,
                    forall|i: int| 0 <= i < n ==> 0 <= #[trigger] self.nets@[i].0 <= u32::MAX,
                    forall|i: int| 0 <= i < self.nets@.len() ==> !(u32::MAX - 29 <= #[trigger] self.nets@[i].0 <= u32::MAX),
                    pins == old(self).netlist@.pins,
                    nets == net_views(old(self).nets@),
                    known == old(self).known_pins@,
                    init == (RoutingState { grid: old(self).detail_router@, states: old(self).net_states@ }),
                    passes_run(pins, nets, known, init, ps),
                    ps.len() == pass + 1,
                    s0 == ps.last(),
                    some_unrouted(s0),
                    rip_phase(pins, nets, known, pass, s0, n as nat) == Ok::<RoutingState, RouterError>(s1),
                    routes_run(pins, nets, known, pass, s1, ss, rs),
                    rs.len() == k,
                    forall|j: int| 0 <= j < k ==> (#[trigger] rs[j]) is Ok,
                    ss.last() == (RoutingState { grid: self.detail_router@, states: self.net_states@ }),
                decreases n - k,
            {
                let r = self.route_net(k);
                proof {
                    assert(nets[k as int] == (self.nets@[k as int].0, self.nets@[k as int].1@));
                    let cur = RoutingState { grid: self.detail_router@, states: self.net_states@ };
                    let ss2 = ss.push(cur);
                    let rs2 = rs.push(r);
                    assert forall|j: int| 0 <= j < rs2.len() implies route_net_outcome(pins, nets[j].0, nets[j].1, known, pass, j,
                        ss2[j].grid, ss2[j].states, ss2[j + 1].grid, ss2[j + 1].states, #[trigger] rs2[j]) by {
                        if j < rs.len() {
                            assert(ss2[j] == ss[j]);
                            assert(ss2[j + 1] == ss[j + 1]);
                            assert(rs2[j] == rs[j]);
                        }
                    }
                    assert forall|j: int| 0 <= j < rs2.len() - 1 implies (#[trigger] rs2[j]) is Ok by {
                        assert(rs2[j] == rs[j]);
                    }
                    ss = ss2;
                    rs = rs2;
                    assert(routes_run(pins, nets, known, pass, s1, ss, rs));
                }
                match r {
                    Ok(()) => {},
                    Err(e) => {
                        proof {
                            assert((ps.len() - 1) as u32 == pass);
                            assert(rip_phase(pins, nets, known, pass, s0, nets.len()) == Ok::<RoutingState, RouterError>(s1));
                            assert(rs.len() > 0 && rs.last() == Err::<(), RouterError>(e));
                            assert(routed_pass(pins, nets, known, pass, s1, ss.last(), Err::<(), RouterError>(e)));
                            assert(pass_outcome(pins, nets, known, pass, s0, ss.last(), Err::<(), RouterError>(e)));
                            assert(pass_outcome(pins, nets, known, (ps.len() - 1) as u32, ps.last(), ss.last(), Err::<(), RouterError>(e)));
                            assert(passes_run(pins, nets, known, init, ps));
                        }
                        return Err(e);
                    },
                }
                proof {
                    assert forall|j: int| 0 <= j < k + 1 implies (#[trigger] rs[j]) is Ok by {
                        if j < k {
                            assert(rs[j] == rs.drop_last()[j]);
                        }
                    }
                }
                k = k + 1;
            }
            proof {
                assert(rip_phase(pins, nets, known, pass, s0, nets.len()) == Ok::<RoutingState, RouterError>(s1));
                assert(routes_run(pins, nets, known, pass, s1, ss, rs));
                assert(rs.len() == nets.len());
                assert(rs.len() == 0 || rs.last() is Ok);
                assert(routed_pass(pins, nets, known, pass, s1, ss.last(), Ok(())));
                assert(pass_outcome(pins, nets, known, pass, s0, ss.last(), Ok(())));
            }
            self.routing_pass = self.routing_pass + 1;
            proof {
                let cur = RoutingState { grid: self.detail_router@, states: self.net_states@ };
                let ps2 = ps.push(cur);
                assert forall|q: int| 0 <= q < ps2.len() - 1 implies {
                    &&& q < MAX_ROUTING_PASSES
                    &&& some_unrouted(#[trigger] ps2[q])
                    &&& pass_outcome(pins, nets, known, q as u32, ps2[q], ps2[q + 1], Ok(()))
                } by {
                    if q < ps.len() - 1 {
                        assert(ps2[q] == ps[q]);
                        assert(ps2[q + 1] == ps[q + 1]);
                    } else {
                        assert(ps2[q] == s0);
                        assert(ps2[q + 1] == cur);
                    }
                }
                ps = ps2;
                assert(passes_run(pins, nets, known, init, ps));
            }
        }
        proof {
            assert(passes_run(pins, nets, known, init, ps));
        }
        Ok(())
    }
}

/// The state of routing that changes from pass to pass: the grid and each net's state.
pub struct RoutingState {
    pub grid: DetailRouterView,
    pub states: Seq<NetState>,
}

/// Some net is not routed in `s`.
pub open spec fn some_unrouted(s: RoutingState) -> bool {
    exists|i: int| 0 <= i < s.states.len() && #[trigger] s.states[i] != NetState::Routed
}

/// The rip-up step for the `k`-th net (of the nets `nets`, with pins `pins` and known pin
/// directions `known`) in pass `pass`: nets whose number plus the pass number is a multiple
/// of 30 are ripped up (see [`Router::rip_up_net`]), except in the last pass.
pub open spec fn rip_outcome(pins: Seq<Pin>, nets: Seq<(i64, NetView)>, known: Map<(int, int, int), Direction>,
    pass: u32, k: int, s: RoutingState) -> Result<RoutingState, RouterError>
{
    let number = nets[k].0;
    if number < 0 || number > u32::MAX {
        Err(RouterError::NetIndexOutOfRange(number))
    } else if (pass + number) % 30 == 0 && pass != MAX_ROUTING_PASSES - 1 {
        let id = RouteId(number as u32);
        let g = s.grid.without_route(id);
        let ps = net_pin_cells(pins, nets[k].1);
        match restore_error(g, ps, known) {
            Some(e) => Err(e),
            None => Ok(RoutingState {
                grid: restore_pins(g, ps, known, id),
                states: s.states.update(k, NetState::RippedUpInPass(pass)),
            }),
        }
    } else {
        Ok(s)
    }
}

/// The rip-up steps of the first `k` nets in pass `pass`, in order, stopping at the first
/// error.
pub open spec fn rip_phase(pins: Seq<Pin>, nets: Seq<(i64, NetView)>, known: Map<(int, int, int), Direction>,
    pass: u32, s: RoutingState, k: nat) -> Result<RoutingState, RouterError>
    decreases k,
{
    if k == 0 {
        Ok(s)
    } else {
        match rip_phase(pins, nets, known, pass, s, (k - 1) as nat) {
            Err(e) => Err(e),
            Ok(s1) => rip_outcome(pins, nets, known, pass, k - 1, s1),
        }
    }
}

/// Routing the nets one after the other in pass `pass`, from state `s`: `ss[k + 1]` and
/// `rs[k]` are what routing the `k`-th net from `ss[k]` gives, and every net but the last
/// routed without error.
pub open spec fn routes_run(pins: Seq<Pin>, nets: Seq<(i64, NetView)>, known: Map<(int, int, int), Direction>,
    pass: u32, s: RoutingState, ss: Seq<RoutingState>, rs: Seq<Result<(), RouterError>>) -> bool
{
    &&& ss.len() == rs.len() + 1
    &&& rs.len() <= nets.len()
    &&& ss[0] == s
    &&& forall|k: int| 0 <= k < rs.len() ==> route_net_outcome(pins, nets[k].0, nets[k].1, known, pass, k,
        ss[k].grid, ss[k].states, ss[k + 1].grid, ss[k + 1].states, #[trigger] rs[k])
    &&& forall|k: int| 0 <= k < rs.len() - 1 ==> (#[trigger] rs[k]) is Ok
}

/// Routing the nets in pass `pass` from state `s` (after rip-up) ends in state `after` with
/// result `r`: every net routed without error, or the routing stopped at the first error.
pub open spec fn routed_pass(pins: Seq<Pin>, nets: Seq<(i64, NetView)>, known: Map<(int, int, int), Direction>,
    pass: u32, s: RoutingState, after: RoutingState, r: Result<(), RouterError>) -> bool
{
    exists|ss: Seq<RoutingState>, rs: Seq<Result<(), RouterError>>| {
        &&& #[trigger] routes_run(pins, nets, known, pass, s, ss, rs)
        &&& after == ss.last()
        &&& match r {
            Ok(()) => rs.len() == nets.len() && (rs.len() == 0 || rs.last() is Ok),
            Err(e) => rs.len() > 0 && rs.last() == Err::<(), RouterError>(e),
        }
    }
}

/// One routing pass `pass` from state `before`: rip up, then route every net in order;
/// `after` and `r` are the state and result when the pass ends (after an error in rip-up,
/// the state is left unsaid).
pub open spec fn pass_outcome(pins: Seq<Pin>, nets: Seq<(i64, NetView)>, known: Map<(int, int, int), Direction>,
    pass: u32, before: RoutingState, after: RoutingState, r: Result<(), RouterError>) -> bool
{
    match rip_phase(pins, nets, known, pass, before, nets.len()) {
        Err(e) => r == Err::<(), RouterError>(e),
        Ok(s1) => routed_pass(pins, nets, known, pass, s1, after, r),
    }
}

/// The passes `ps[0]`, `ps[1]`, ... ran one after the other from `init`: pass `q` ran from
/// `ps[q]` to `ps[q + 1]` without error, because some net was unrouted and fewer than
/// [`MAX_ROUTING_PASSES`] passes had run.
pub open spec fn passes_run(pins: Seq<Pin>, nets: Seq<(i64, NetView)>, known: Map<(int, int, int), Direction>,
    init: RoutingState, ps: Seq<RoutingState>) -> bool
{
    &&& ps.len() >= 1
    &&& ps[0] == init
    &&& forall|q: int| 0 <= q < ps.len() - 1 ==> {
        &&& q < MAX_ROUTING_PASSES
        &&& some_unrouted(#[trigger] ps[q])
        &&& pass_outcome(pins, nets, known, q as u32, ps[q], ps[q + 1], Ok(()))
    }
}

proof fn lemma_rip_phase_error_persists(pins: Seq<Pin>, nets: Seq<(i64, NetView)>, known: Map<(int, int, int), Direction>,
    pass: u32, s: RoutingState, k: nat, n: nat, e: RouterError)
    requires
        k <= n,
        rip_phase(pins, nets, known, pass, s, k) == Err::<RoutingState, RouterError>(e),
    ensures
        rip_phase(pins, nets, known, pass, s, n) == Err::<RoutingState, RouterError>(e),
    decreases n - k,
{
    if k < n {
        lemma_rip_phase_error_persists(pins, nets, known, pass, s, k + 1, n, e);
    }
}

/// One routed wire cell: where it is, and the directions the signal enters and leaves in.
pub struct Segment {
    pub pos: (int, int, int),
    pub din: Direction,
    pub dout: Direction,
}

/// The tier-layer of grid row `y`.
pub open spec fn segment_layer(y: int) -> WireTierLayer {
    WireTierLayer { tier: (y / 5) as u32, layer: layer_of_compact(y % 5) }
}

/// The output after turning one wire cell into blocks.
pub open spec fn splat_segment(v: BlockStorageView, sg: Segment) -> BlockStorageView {
    let tl = segment_layer(sg.pos.1);
    let pal = splat_palette(v.palette);
    let wp = WirePosition { x: sg.pos.0 as i32, y: sg.pos.2 as i32 };
    run_writes(with_palette(v, pal), wire_segment_plan(wp, (tl, sg.din), (tl, sg.dout)).0, splat_indices(pal)).0
}

/// The output after turning the wire cells `segs` into blocks, in order.
pub open spec fn splat_all(v: BlockStorageView, segs: Seq<Segment>) -> BlockStorageView
    decreases segs.len(),
{
    if segs.len() == 0 {
        v
    } else {
        splat_segment(splat_all(v, segs.drop_last()), segs.last())
    }
}

/// The chain of cells net `id` holds, starting at `pos` entered in direction `prev` and
/// following each cell's direction, for at most `fuel` cells; and, when the chain runs off
/// the grid, where.
pub open spec fn chain(g: DetailRouterView, pos: (int, int, int), prev: Direction, id: u32, fuel: nat)
    -> (Seq<Segment>, Option<(int, int, int)>)
    decreases fuel,
{
    if fuel == 0 {
        (seq![], None)
    } else if !g.contains(pos) {
        (seq![], Some(pos))
    } else {
        match g.cells[pos] {
            GridCell::Occupied(d, rid) => if rid.0 == id {
                let rest = chain(g, step(pos, d), d, id, (fuel - 1) as nat);
                (seq![Segment { pos, din: prev, dout: d }] + rest.0, rest.1)
            } else {
                (seq![], None)
            },
            _ => (seq![], None),
        }
    }
}

/// The wire cells of the route to sink pin `pin` of net `id`, and the error that stops them.
pub open spec fn sink_chain(g: DetailRouterView, known: Map<(int, int, int), Direction>, id: u32, pin: Pin, fuel: nat)
    -> (Seq<Segment>, Option<RouterError>)
{
    let p = pin_grid(pin);
    if !known.contains_key(p.key()) {
        (seq![], Some(RouterError::PinNotFound(p)))
    } else {
        let d = known[p.key()];
        let c = chain(g, step(p.key(), d), d, id, fuel);
        (c.0, match c.1 {
            Some(q) => Some(RouterError::Routing(RoutingError::OutOfBounds {
                pos: GridCellPosition { x: q.0 as i32, y: q.1 as i32, z: q.2 as i32 },
                bounds: (g.size.0 as i32, g.size.1 as i32, g.size.2 as i32),
            })),
            None => None,
        })
    }
}

/// The sinks to draw wires to: for every net in order, its number (as `u32`) with each of its
/// sink pins in order.
pub open spec fn sink_jobs(nets: Seq<(i64, NetView)>, pins: Seq<Pin>) -> Seq<(u32, Pin)>
    decreases nets.len(),
{
    if nets.len() == 0 {
        seq![]
    } else {
        let (n, net) = nets.last();
        sink_jobs(nets.drop_last(), pins) + net.sinks.map_values(|i: u32| (n as u32, pins[i as int]))
    }
}

/// The output after drawing the wires to the sinks `jobs`, in order, stopping at the first
/// error.
pub open spec fn splat_jobs(v: BlockStorageView, g: DetailRouterView, known: Map<(int, int, int), Direction>,
    jobs: Seq<(u32, Pin)>, fuel: nat) -> (BlockStorageView, Option<RouterError>)
    decreases jobs.len(),
{
    if jobs.len() == 0 {
        (v, None)
    } else {
        let prev = splat_jobs(v, g, known, jobs.drop_last(), fuel);
        if prev.1 is Some {
            prev
        } else {
            let c = sink_chain(g, known, jobs.last().0, jobs.last().1, fuel);
            (splat_all(prev.0, c.0), c.1)
        }
    }
}

/// The nets of a router with their views.
pub open spec fn net_views(nets: Seq<(i64, &Net)>) -> Seq<(i64, NetView)> {
    nets.map_values(|e: (i64, &Net)| (e.0, e.1@))
}

proof fn lemma_splat_jobs_error_persists(v: BlockStorageView, g: DetailRouterView, known: Map<(int, int, int), Direction>,
    jobs: Seq<(u32, Pin)>, fuel: nat, k: int)
    requires
        0 <= k <= jobs.len(),
        splat_jobs(v, g, known, jobs.take(k), fuel).1 is Some,
    ensures
        splat_jobs(v, g, known, jobs, fuel) == splat_jobs(v, g, known, jobs.take(k), fuel),
    decreases jobs.len(),
{
    if k == jobs.len() {
        assert(jobs.take(k) =~= jobs);
    } else {
        assert(jobs.drop_last().take(k) =~= jobs.take(k));
        lemma_splat_jobs_error_persists(v, g, known, jobs.drop_last(), fuel, k);
    }
}

/// The palette is either the original one or the original one with the wire blocks.
pub open spec fn palette_settled(p: Seq<BlockView>, p0: Seq<BlockView>) -> bool {
    p == p0 || p == splat_palette(p0)
}

proof fn lemma_splat_segment_keeps(v: BlockStorageView, sg: Segment, p0: Seq<BlockView>)
    requires
        v.wf(),
        palette_settled(v.palette, p0),
    ensures
        splat_segment(v, sg).wf(),
        splat_segment(v, sg).extents == v.extents,
        palette_settled(splat_segment(v, sg).palette, p0),
{
    let pal = splat_palette(v.palette);
    lemma_splat_palette(p0);
    lemma_splat_palette(v.palette);
    let tl = segment_layer(sg.pos.1);
    let wp = WirePosition { x: sg.pos.0 as i32, y: sg.pos.2 as i32 };
    let w = with_palette(v, pal);
    assert(w.wf()) by {
        assert forall|p: (int, int, int)| #[trigger] w.blocks.contains_key(p) <==> w.in_bounds(p.0, p.1, p.2) by {
            assert(v.blocks.contains_key(p) <==> v.in_bounds(p.0, p.1, p.2));
        }
    }
    lemma_run_writes_keeps(w, wire_segment_plan(wp, (tl, sg.din), (tl, sg.dout)).0, splat_indices(pal));
}

proof fn lemma_splat_all_keeps(v: BlockStorageView, segs: Seq<Segment>, p0: Seq<BlockView>)
    requires
        v.wf(),
        palette_settled(v.palette, p0),
    ensures
        splat_all(v, segs).wf(),
        splat_all(v, segs).extents == v.extents,
        palette_settled(splat_all(v, segs).palette, p0),
    decreases segs.len(),
{
    if segs.len() > 0 {
        lemma_splat_all_keeps(v, segs.drop_last(), p0);
        lemma_splat_segment_keeps(splat_all(v, segs.drop_last()), segs.last(), p0);
    }
}

impl<'nets> Router<'nets> {
    /// Draw the routed wires into `output`: for every net (in number order) and each of its
    /// sinks, follow the chain of cells the net holds, from the cell the sink's pin points at,
    /// turning each into a wire segment on its tier-layer; segments that have no block pattern
    /// are skipped. A chain is followed for at most as many cells as the grid has, which any
    /// chain that does not come back on itself respects.
    #[verifier::rlimit(80)]
    pub fn splat_routes(&self, output: &mut BlockStorage) -> (r: Result<(), RouterError>)
        requires
            self.wf(),
            old(output).wf(),
            old(output)@.palette.len() + 6 < u32::MAX,
            self.detail_router@.size.0 < 0x3fff_fff0,
            self.detail_router@.size.2 < 0x3fff_fff0,
            (self.detail_router@.size.1 / 5) * 16 + 16 <= i32::MAX,
        ensures
            final(output).wf(),
            final(output)@.extents == old(output)@.extents,
            ({
                let jobs = sink_jobs(net_views(self.nets@), self.netlist@.pins);
                let fuel = (self.detail_router@.size.0 * self.detail_router@.size.1 * self.detail_router@.size.2) as nat;
                let res = splat_jobs(old(output)@, self.detail_router@, self.known_pins@, jobs, fuel);
                &&& final(output)@ == res.0
                &&& r == match res.1 {
                    Some(e) => Err::<(), RouterError>(e),
                    None => Ok(()),
                }
            }),
    {
        let ghost g = self.detail_router@;
        let ghost known = self.known_pins@;
        let ghost pins = self.netlist@.pins;
        let ghost v0 = output@;
        let ghost p0 = output@.palette;
        let ghost nv = net_views(self.nets@);
        proof {
            self.netlist.lemma_wf_nets();
            self.detail_router.lemma_view_wf();
            crate::wire_segment::lemma_splat_palette(p0);
        }
        let mut jobs: Vec<(u32, Pin)> = Vec::new();
        let n = self.nets.len();
        let mut k: usize = 0;
        while k < n
            invariant
                self.wf(),
                n == self.nets@.len(),
                nv == net_views(self.nets@),
                pins == self.netlist@.pins,
                k <= n,
                jobs@ == sink_jobs(nv.take(k as int), pins),
                forall|i: int| 0 <= i < pins.len() ==> small_pin(#[trigger] pins[i]),
                forall|i: int| 0 <= i < jobs@.len() ==> small_pin(#[trigger] jobs@[i].1),
            decreases n - k,
        {
            let (number, net) = self.nets[k];
            proof {
                self.netlist.lemma_wf_nets();
                assert(self.netlist@.nets.contains_key(self.nets@[k as int].0));
                assert(net_fits(net@, pins.len()));
                assert(nv.take(k + 1).drop_last() =~= nv.take(k as int));
                assert(nv.take(k + 1).last() == (number, net@));
            }
            let sinks = net.iter_sinks(self.netlist);
            let id = number as u32;
            let ghost base = jobs@;
            let mut j: usize = 0;
            while j < sinks.len()
                invariant
                    j <= sinks@.len(),
                    jobs@ == base + sinks@.take(j as int).map_values(|p: Pin| (id, p)),
                    sinks@ == net@.sinks.map_values(|i: u32| pins[i as int]),
                    net_fits(net@, pins.len()),
                    forall|i: int| 0 <= i < pins.len() ==> small_pin(#[trigger] pins[i]),
                    forall|i: int| 0 <= i < jobs@.len() ==> small_pin(#[trigger] jobs@[i].1),
                decreases sinks@.len() - j,
            {
                jobs.push((id, sinks[j]));
                proof {
                    assert(sinks@[j as int] == pins[net@.sinks[j as int] as int]);
                    assert(sinks@.take(j + 1) =~= sinks@.take(j as int).push(sinks@[j as int]));
                    assert(jobs@ =~= base + sinks@.take(j + 1).map_values(|p: Pin| (id, p)));
                }
                j = j + 1;
            }
            proof {
                assert(sinks@.take(sinks@.len() as int) =~= sinks@);
                assert(sinks@.map_values(|p: Pin| (id, p)) =~= net@.sinks.map_values(|i: u32| (number as u32, pins[i as int])));
            }
            k = k + 1;
        }
        proof {
            assert(nv.take(n as int) =~= nv);
        }
        let volume = self.detail_router.cell_count();
        let ghost fuel0 = volume as nat;
        let nj = jobs.len();
        let mut t: usize = 0;
        while t < nj
            invariant
                self.wf(),
                g == self.detail_router@,
                known == self.known_pins@,
                nj == jobs@.len(),
                volume == g.size.0 * g.size.1 * g.size.2,
                fuel0 == volume as nat,
                g.size.0 < 0x3fff_fff0,
                g.size.2 < 0x3fff_fff0,
                (g.size.1 / 5) * 16 + 16 <= i32::MAX,
                forall|i: int| 0 <= i < pins.len() ==> small_pin(#[trigger] pins[i]),
                jobs@ == sink_jobs(nv, pins),
                forall|i: int| 0 <= i < jobs@.len() ==> small_pin(#[trigger] jobs@[i].1),
                t <= nj,
                g.wf(),
                nv == net_views(self.nets@),
                pins == self.netlist@.pins,
                v0 == old(output)@,
                output.wf(),
                output@.extents == v0.extents,
                p0 == v0.palette,
                p0.len() + 6 < u32::MAX,
                splat_palette(p0).len() <= p0.len() + 3,
                palette_settled(output@.palette, p0),
                splat_jobs(v0, g, known, jobs@.take(t as int), fuel0) == (output@, None::<RouterError>),
            decreases nj - t,
        {
            let (id, pin) = jobs[t];
            let ghost before = output@;
            proof {
                assert(jobs@.take(t + 1).drop_last() =~= jobs@.take(t as int));
                assert(jobs@.take(t + 1).last() == (id, pin));
            }
            let p = pin_grid_position(pin);
            let d0 = match self.known_pins.get(p) {
                Some(d) => d,
                None => {
                    proof {
                        assert(splat_all(output@, Seq::<Segment>::empty()) == output@);
                        assert(splat_jobs(v0, g, known, jobs@.take(t + 1), fuel0) == (output@, Some(RouterError::PinNotFound(p))));
                        lemma_splat_jobs_error_persists(v0, g, known, jobs@, fuel0, t + 1);
                    }
                    return Err(RouterError::PinNotFound(p));
                },
            };
            let mut pos = p.offset(d0);
            let mut prev = d0;
            let mut fuel: usize = volume;
            let ghost c0 = chain(g, pos.key(), prev, id, fuel0);
            let ghost mut done: Seq<Segment> = seq![];
            while fuel > 0
                invariant
                    v0 == old(output)@,
                    nv == net_views(self.nets@),
                    pins == self.netlist@.pins,
                    jobs@ == sink_jobs(nv, pins),
                    volume == g.size.0 * g.size.1 * g.size.2,
                    fuel0 == volume as nat,
                    t < nj,
                    nj == jobs@.len(),
                    known == self.known_pins@,
                    splat_jobs(v0, g, known, jobs@.take(t as int), fuel0) == (before, None::<RouterError>),
                    jobs@.take(t + 1).drop_last() == jobs@.take(t as int),
                    jobs@.take(t + 1).last() == (id, pin),
                    p == pin_grid(pin),
                    known.contains_key(p.key()),
                    c0 == chain(g, step(p.key(), known[p.key()]), known[p.key()], id, fuel0),
                    self.wf(),
                    g == self.detail_router@,
                    g.size.0 < 0x3fff_fff0,
                    g.size.2 < 0x3fff_fff0,
                    (g.size.1 / 5) * 16 + 16 <= i32::MAX,
                    g.wf(),
                    -0x2000_0001 <= pos.x <= 0x4000_0000,
                    -0x2000_0001 <= pos.y <= 0x4000_0000,
                    -0x2000_0001 <= pos.z <= 0x4000_0000,
                    c0.0 == done + chain(g, pos.key(), prev, id, fuel as nat).0,
                    c0.1 == chain(g, pos.key(), prev, id, fuel as nat).1,
                    output.wf(),
                    output@.extents == v0.extents,
                    p0.len() + 6 < u32::MAX,
                    splat_palette(p0).len() <= p0.len() + 3,
                    palette_settled(output@.palette, p0),
                    output@ == splat_all(before, done),
                ensures
                    chain(g, pos.key(), prev, id, fuel as nat).0.len() == 0,
                    chain(g, pos.key(), prev, id, fuel as nat).1 is None,
                    c0.0 == done + chain(g, pos.key(), prev, id, fuel as nat).0,
                    c0.1 == chain(g, pos.key(), prev, id, fuel as nat).1,
                    output.wf(),
                    output@.extents == v0.extents,
                    palette_settled(output@.palette, p0),
                    output@ == splat_all(before, done),
                    -0x2000_0001 <= pos.x <= 0x4000_0000,
                    -0x2000_0001 <= pos.y <= 0x4000_0000,
                    -0x2000_0001 <= pos.z <= 0x4000_0000,
                decreases fuel,
            {
                let cell = match self.detail_router.get_cell(pos) {
                    Ok(c) => *c,
                    Err(e) => {
                        proof {
                            assert(chain(g, pos.key(), prev, id, fuel as nat) == (Seq::<Segment>::empty(), Some(pos.key())));
                            assert(done =~= c0.0);
                            assert(splat_jobs(v0, g, known, jobs@.take(t + 1), fuel0).1 == Some(RouterError::Routing(e)));
                            assert(splat_jobs(v0, g, known, jobs@.take(t + 1), fuel0).0 == splat_all(before, c0.0));
                            assert(splat_jobs(v0, g, known, jobs@.take(t + 1), fuel0) == (output@, Some(RouterError::Routing(e))));
                            lemma_splat_jobs_error_persists(v0, g, known, jobs@, fuel0, t + 1);
                        }
                        return Err(RouterError::Routing(e));
                    },
                };
                match cell {
                    GridCell::Occupied(d, rid) => {
                        if rid.0 != id {
                            break;
                        }
                        let tier = (pos.y as u32) / 5;
                        let layer = match Layer::from_compact_idx(pos.y % 5) {
                            Ok(l) => l,
                            Err(_) => Layer::LI,
                        };
                        let tl = WireTierLayer::new(tier, layer);
                        let ghost sg = Segment { pos: pos.key(), din: prev, dout: d };
                        proof {
                            crate::wire_segment::lemma_adjacent_iff_stack_neighbours(tl, tl);
                            assert(tl == segment_layer(pos.y as int));
                            lemma_splat_palette(output@.palette);
                            output.lemma_view_wf();
                        }
                        let _ = splat_wire_segment(output, WirePosition::new(pos.x, pos.z), (tl, prev), (tl, d));
                        proof {
                            lemma_splat_segment_keeps(splat_all(before, done), sg, p0);
                            let rest = chain(g, step(pos.key(), d), d, id, (fuel - 1) as nat);
                            assert(chain(g, pos.key(), prev, id, fuel as nat).0 == seq![sg] + rest.0);
                            assert(done.push(sg).drop_last() =~= done);
                            assert(done + (seq![sg] + rest.0) =~= done.push(sg) + rest.0);
                            done = done.push(sg);
                        }
                        prev = d;
                        pos = pos.offset(d);
                        fuel = fuel - 1;
                    },
                    _ => {
                        break;
                    },
                }
            }
            proof {
                assert(done + chain(g, pos.key(), prev, id, fuel as nat).0 =~= done);
                assert(splat_jobs(v0, g, known, jobs@.take(t + 1), fuel0) == (output@, None::<RouterError>));
            }
            t = t + 1;
        }
        proof {
            assert(jobs@.take(nj as int) =~= jobs@);
        }
        Ok(())
    }
}

/// `nets` lists the nets of `m`, with their numbers, in increasing order of number.
pub open spec fn lists_nets(nets: Seq<(i64, NetView)>, m: Map<i64, NetView>) -> bool {
    &&& forall|i: int| 0 <= i < nets.len() ==> m.contains_key(#[trigger] nets[i].0) && m[nets[i].0] == nets[i].1
    &&& forall|k: i64| #[trigger] m.contains_key(k) ==> exists|i: int| 0 <= i < nets.len() && nets[i].0 == k
    &&& forall|i: int, j: int| 0 <= i < j < nets.len() ==> nets[i].0 < nets[j].0
}

/// The routing grid set up for output `v` over `tiers` tiers (see [`Router::new`]): as wide
/// and deep as the output, five layers per tier, and blocked where the output's blocks keep
/// wires out.
pub open spec fn setup_grid(v: BlockStorageView, tiers: u32) -> DetailRouterView {
    let size = (v.extents.0 as int, (tiers * 5) as int, v.extents.2 as int);
    DetailRouterView {
        size,
        cells: Map::new(|g: (int, int, int)| crate::detail_routing::in_box(size, g),
            |g: (int, int, int)| if marked_before(v, v.volume() as int, g) { GridCell::Blocked } else { GridCell::Free }),
    }
}

/// The routing state before the first pass: the set-up grid, and all `n` nets unrouted.
pub open spec fn setup_state(v: BlockStorageView, tiers: u32, n: nat) -> RoutingState {
    RoutingState { grid: setup_grid(v, tiers), states: Seq::new(n, |i: int| NetState::Unrouted) }
}

/// Rip-up and reroute ended after the passes `ps`: all passes ran, or every net is routed.
pub open spec fn rnr_finished(ps: Seq<RoutingState>) -> bool {
    ps.len() - 1 == MAX_ROUTING_PASSES || !some_unrouted(ps.last())
}

/// Routing `netlist` (nets `nets`) over `tiers` tiers in output `before`, with the passes
/// `ps` of rip-up and reroute, ends with output `after` and result `r`: an error of the last
/// pass, or the wires of the final grid drawn in (see [`Router::splat_routes`]).
pub open spec fn routing_result(before: BlockStorageView, after: BlockStorageView, ps: Seq<RoutingState>,
    nets: Seq<(i64, NetView)>, netlist: crate::netlist::NetlistView, r: Result<(), RouterError>) -> bool
{
    let known = pins_after(before, before.volume() as int, Map::empty());
    let g = ps.last().grid;
    let fuel = (g.size.0 * g.size.1 * g.size.2) as nat;
    let res = splat_jobs(before, g, known, sink_jobs(nets, netlist.pins), fuel);
    match r {
        Ok(()) => rnr_finished(ps) && res.1 is None && after == res.0,
        Err(e) => {
            ||| !rnr_finished(ps) && exists|a: RoutingState| #[trigger] pass_outcome(netlist.pins, nets, known,
                (ps.len() - 1) as u32, ps.last(), a, Err::<(), RouterError>(e))
            ||| rnr_finished(ps) && res.1 == Some(e) && after == res.0
        },
    }
}

/// Route `netlist` in `output` over `tiers` tiers, and draw the wires: set up the router
/// (see [`Router::new`]), rip up and reroute (see [`Router::rnr_loop`]), then draw the routed
/// wires (see [`Router::splat_routes`]).
pub fn do_route(tiers: u32, netlist: &Netlist, output: &mut BlockStorage) -> (r: Result<(), RouterError>)
    requires
        old(output).wf(),
        netlist.wf(),
        old(output)@.extents.0 < 0x3fff_fff0,
        old(output)@.extents.1 < 0x3fff_fff0,
        old(output)@.extents.2 < 0x3fff_fff0,
        tiers * 16 + 16 <= i32::MAX,
        old(output)@.extents.0 * (tiers * 5) <= u32::MAX,
        old(output)@.extents.0 * old(output)@.extents.2 <= i32::MAX,
        old(output)@.extents.0 * (tiers * 5) * old(output)@.extents.2 <= u32::MAX,
        old(output)@.palette.len() + 6 < u32::MAX,
        forall|i: int| 0 <= i < netlist@.pins.len() ==> small_pin(#[trigger] netlist@.pins[i]),
        forall|k: i64| #[trigger] netlist@.nets.contains_key(k) ==> !(u32::MAX - 29 <= k <= u32::MAX),
    ensures
        final(output).wf(),
        final(output)@.extents == old(output)@.extents,
        first_block_error(old(output)@, old(output)@.volume() as int) matches Some(e) ==> r == Err::<(), RouterError>(e)
            && final(output)@ == old(output)@,
        first_block_error(old(output)@, old(output)@.volume() as int) is None ==> exists|ps: Seq<RoutingState>, nets: Seq<(i64, NetView)>| {
            &&& lists_nets(nets, netlist@.nets)
            &&& #[trigger] passes_run(netlist@.pins, nets, pins_after(old(output)@, old(output)@.volume() as int, Map::empty()),
                setup_state(old(output)@, tiers, nets.len()), ps)
            &&& routing_result(old(output)@, final(output)@, ps, nets, netlist@, r)
        },
{
    let ghost v0 = output@;
    let mut router = match Router::new(tiers, netlist, output) {
        Ok(r) => r,
        Err(e) => return Err(e),
    };
    let ghost known0 = router.known_pins@;
    let ghost pins = netlist@.pins;
    let ghost nets = net_views(router.nets@);
    proof {
        assert forall|i: int| 0 <= i < router.nets@.len() implies !(u32::MAX - 29 <= #[trigger] router.nets@[i].0 <= u32::MAX) by {
            assert(netlist@.nets.contains_key(router.nets@[i].0));
        }
        assert(lists_nets(nets, netlist@.nets)) by {
            assert forall|k: i64| #[trigger] netlist@.nets.contains_key(k) implies exists|i: int| 0 <= i < nets.len() && nets[i].0 == k by {
                let i = choose|i: int| 0 <= i < router.nets@.len() && router.nets@[i].0 == k;
                assert(nets[i].0 == k);
            }
        }
        router.detail_router.lemma_view_wf();
        assert(router.detail_router@.cells =~= setup_grid(v0, tiers).cells);
        assert(router.net_states@ =~= Seq::new(nets.len(), |i: int| NetState::Unrouted));
        assert(RoutingState { grid: router.detail_router@, states: router.net_states@ } == setup_state(v0, tiers, nets.len()));
    }
    let ghost init = RoutingState { grid: router.detail_router@, states: router.net_states@ };
    let r1 = router.rnr_loop();
    let ghost ps = choose|ps: Seq<RoutingState>| {
        &&& #[trigger] passes_run(pins, nets, known0, init, ps)
        &&& match r1 {
            Ok(()) => {
                &&& router.routing_pass == ps.len() - 1
                &&& ps.last() == (RoutingState { grid: router.detail_router@, states: router.net_states@ })
                &&& (ps.len() - 1 == MAX_ROUTING_PASSES || !some_unrouted(ps.last()))
            },
            Err(e) => {
                &&& ps.len() - 1 < MAX_ROUTING_PASSES
                &&& some_unrouted(ps.last())
                &&& exists|after: RoutingState| #[trigger] pass_outcome(pins, nets, known0, (ps.len() - 1) as u32,
                    ps.last(), after, Err::<(), RouterError>(e))
            },
        }
    };
    match r1 {
        Err(e) => {
            proof {
                assert(routing_result(v0, output@, ps, nets, netlist@, Err::<(), RouterError>(e)));
                assert(passes_run(pins, nets, known0, setup_state(v0, tiers, nets.len()), ps));
            }
            return Err(e);
        },
        Ok(()) => {},
    }
    let r = router.splat_routes(output);
    proof {
        assert(routing_result(v0, output@, ps, nets, netlist@, r));
        assert(passes_run(pins, nets, known0, setup_state(v0, tiers, nets.len()), ps));
    }
    r
}

} // verus!
