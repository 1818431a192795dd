//! The routing netlist: every connected cell port bit becomes a pin at a block position, and
//! pins are grouped into nets by their signal number.

use itertools::Itertools;
use vstd::prelude::*;

use crate::cell_params::{assoc_get, assoc_lookup};
use crate::design::{BitVector, Cell, PlacedDesign, Signal, SignalType};
use crate::structure_cache::StructureCache;
use crate::text::str_eq;

verus! {

/// Whether a pin feeds its net or is fed by it.
#[derive(Copy, Clone, Debug, PartialEq, Eq, Structural)]
pub enum PinDirection {
    Input,
    Output,
}

/// Where a cell port bit sits relative to the cell, and which way it points.
#[derive(Copy, Clone, Debug, PartialEq, Eq, Structural)]
pub struct PinMetadata {
    pub offset_x: u32,
    pub offset_y: u32,
    pub offset_z: u32,
    pub sig_derating: u32,
    pub direction: PinDirection,
}

/// A pin at a block position.
#[derive(Copy, Clone, Debug, PartialEq, Eq, Structural)]
pub struct Pin {
    pub x: u32,
    pub y: u32,
    pub z: u32,
    pub direction: PinDirection,
}

/// The pins of one net, as indices into the netlist's pins, in increasing order.
#[derive(Debug)]
pub struct Net {
    drivers: Vec<u32>,
    sinks: Vec<u32>,
}

/// The mathematical value of a [`Net`].
pub struct NetView {
    pub drivers: Seq<u32>,
    pub sinks: Seq<u32>,
}

impl View for Net {
    type V = NetView;

    closed spec fn view(&self) -> NetView {
        NetView { drivers: self.drivers@, sinks: self.sinks@ }
    }
}

/// All pins, and the nets over them by signal number.
pub struct Netlist {
    pins: Vec<Pin>,
    nets: Vec<(i64, Net)>,
}

/// The mathematical value of a [`Netlist`].
pub struct NetlistView {
    pub pins: Seq<Pin>,
    pub nets: Map<i64, NetView>,
}

/// The map from net number to net of a list of (number, net) entries; later entries win.
pub open spec fn net_map(nets: Seq<(i64, Net)>) -> Map<i64, NetView>
    decreases nets.len(),
{
    if nets.len() == 0 {
        Map::empty()
    } else {
        net_map(nets.drop_last()).insert(nets.last().0, nets.last().1@)
    }
}

impl View for Netlist {
    type V = NetlistView;

    closed spec fn view(&self) -> NetlistView {
        NetlistView { pins: self.pins@, nets: net_map(self.nets@) }
    }
}

/// One cell port bit to turn into a pin.
pub struct PinRequest {
    /// Position of the cell.
    pub base: (u32, u32, u32),
    /// Type of the cell.
    pub ty: Seq<char>,
    pub port: Seq<char>,
    /// Index of the bit within the port.
    pub bit: int,
    pub signal: Signal,
}

/// Position of a cell, or the origin when it has none.
pub open spec fn cell_base(c: Cell) -> (u32, u32, u32) {
    match c.pos {
        Some(p) => (p.x, p.y, p.z),
        None => (0, 0, 0),
    }
}

/// The requests for the bits of one port, in bit order.
pub open spec fn bit_requests(base: (u32, u32, u32), ty: Seq<char>, port: Seq<char>, bits: Seq<Signal>) -> Seq<PinRequest> {
    Seq::new(bits.len(), |i: int| PinRequest { base, ty, port, bit: i, signal: bits[i] })
}

/// The requests for the ports of one cell, port by port.
pub open spec fn port_requests(base: (u32, u32, u32), ty: Seq<char>, conns: Seq<(String, BitVector)>) -> Seq<PinRequest>
    decreases conns.len(),
{
    if conns.len() == 0 {
        Seq::empty()
    } else {
        port_requests(base, ty, conns.drop_last()) + bit_requests(base, ty, conns.last().0@, conns.last().1.signal@)
    }
}

/// The requests for all cells, cell by cell.
pub open spec fn design_requests(cells: Seq<Cell>) -> Seq<PinRequest>
    decreases cells.len(),
{
    if cells.len() == 0 {
        Seq::empty()
    } else {
        design_requests(cells.drop_last()) + port_requests(cell_base(cells.last()), cells.last().ty@, cells.last().connection@)
    }
}

/// Errors building a netlist.
#[derive(Debug, PartialEq, Eq, Structural)]
pub enum NetlistError {
    /// Lights cells only have an `I` port.
    LightsPortUnsupported,
    /// Switches cells only have an `O` port.
    SwitchesPortUnsupported,
    /// Cells built from structures only have single-bit ports.
    MultiBitStructurePort,
    /// No structure is known for the cell type.
    UnknownCellType,
    /// The cell's structure has no pin for the port.
    UnknownPort,
    /// A port bit is tied to something other than a numbered net.
    UnsupportedNetIndexType(Option<SignalType>),
    /// More pins than `u32` can number.
    PinCountExceeded,
}

/// Where bit `bit` of port `port` of a cell of type `ty` sits.
pub open spec fn spec_pin_metadata(sc: StructureCache, ty: Seq<char>, port: Seq<char>, bit: int) -> Result<PinMetadata, NetlistError> {
    if ty == "MCPNR_LIGHTS"@ {
        if port != "I"@ {
            Err(NetlistError::LightsPortUnsupported)
        } else {
            Ok(PinMetadata { offset_x: (bit * 2) as u32, offset_y: 1, offset_z: 2, sig_derating: 0, direction: PinDirection::Input })
        }
    } else if ty == "MCPNR_SWITCHES"@ {
        if port != "O"@ {
            Err(NetlistError::SwitchesPortUnsupported)
        } else {
            Ok(PinMetadata { offset_x: (bit * 2) as u32, offset_y: 1, offset_z: 2, sig_derating: 0, direction: PinDirection::Output })
        }
    } else if bit != 0 {
        Err(NetlistError::MultiBitStructurePort)
    } else {
        match sc.pins_of(ty) {
            None => Err(NetlistError::UnknownCellType),
            Some(pins) => match assoc_lookup(pins, port) {
                None => Err(NetlistError::UnknownPort),
                Some(m) => Ok(m),
            },
        }
    }
}

/// The error raised by request `r`, the `i`-th one, if any.
pub open spec fn request_error(sc: StructureCache, r: PinRequest, i: int) -> Option<NetlistError> {
    match spec_pin_metadata(sc, r.ty, r.port, r.bit) {
        Err(e) => Some(e),
        Ok(_) => match r.signal.ty {
            Some(SignalType::Id(_)) => if i > u32::MAX {
                Some(NetlistError::PinCountExceeded)
            } else {
                None
            },
            other => Some(NetlistError::UnsupportedNetIndexType(other)),
        },
    }
}

/// The first error raised by the requests `rs`, in order.
pub open spec fn first_error(sc: StructureCache, rs: Seq<PinRequest>) -> Option<NetlistError>
    decreases rs.len(),
{
    if rs.len() == 0 {
        None
    } else {
        match first_error(sc, rs.drop_last()) {
            Some(e) => Some(e),
            None => request_error(sc, rs.last(), rs.len() - 1),
        }
    }
}

/// The pin made for a request that raised no error.
pub open spec fn request_pin(sc: StructureCache, r: PinRequest) -> Pin {
    let m = spec_pin_metadata(sc, r.ty, r.port, r.bit)->Ok_0;
    Pin {
        x: (r.base.0 + m.offset_x) as u32,
        y: (r.base.1 + m.offset_y) as u32,
        z: (r.base.2 + m.offset_z) as u32,
        direction: m.direction,
    }
}

/// The pin of a request fits in `u32` coordinates.
pub open spec fn request_fits(sc: StructureCache, r: PinRequest) -> bool {
    spec_pin_metadata(sc, r.ty, r.port, r.bit) matches Ok(m) ==> {
        &&& r.base.0 + m.offset_x <= u32::MAX
        &&& r.base.1 + m.offset_y <= u32::MAX
        &&& r.base.2 + m.offset_z <= u32::MAX
    }
}

/// The net number of a request tied to a numbered net.
pub open spec fn request_net(r: PinRequest) -> i64 {
    r.signal.ty->Some_0->Id_0
}

/// The nets made by requests `rs`: request `i` is added, as a driver or a sink, to the net
/// with its number.
pub open spec fn nets_of(sc: StructureCache, rs: Seq<PinRequest>) -> Map<i64, NetView>
    decreases rs.len(),
{
    if rs.len() == 0 {
        Map::empty()
    } else {
        let m = nets_of(sc, rs.drop_last());
        let k = request_net(rs.last());
        let i = (rs.len() - 1) as u32;
        let old = if m.contains_key(k) { m[k] } else { NetView { drivers: Seq::empty(), sinks: Seq::empty() } };
        let new = if request_pin(sc, rs.last()).direction == PinDirection::Input {
            NetView { drivers: old.drivers, sinks: old.sinks.push(i) }
        } else {
            NetView { drivers: old.drivers.push(i), sinks: old.sinks }
        };
        m.insert(k, new)
    }
}

/// Grouping the requests `rs` into nets puts every pin in exactly one net, the one its request
/// names: among the net's drivers when the pin is an output, among its sinks when it is an
/// input, and nowhere else; and a net exists exactly when some request names it.
pub proof fn lemma_nets_place_each_pin_once(sc: StructureCache, rs: Seq<PinRequest>)
    requires
        rs.len() <= u32::MAX + 1,
    ensures
        forall|i: int| 0 <= i < rs.len() ==> {
            let n = nets_of(sc, rs)[request_net(#[trigger] rs[i])];
            &&& nets_of(sc, rs).contains_key(request_net(rs[i]))
            &&& if request_pin(sc, rs[i]).direction == PinDirection::Input {
                n.sinks.contains(i as u32) && !n.drivers.contains(i as u32)
            } else {
                n.drivers.contains(i as u32) && !n.sinks.contains(i as u32)
            }
        },
        forall|k: i64, i: u32| nets_of(sc, rs).contains_key(k) && #[trigger] nets_of(sc, rs)[k].drivers.contains(i)
            ==> i < rs.len() && request_net(rs[i as int]) == k,
        forall|k: i64, i: u32| nets_of(sc, rs).contains_key(k) && #[trigger] nets_of(sc, rs)[k].sinks.contains(i)
            ==> i < rs.len() && request_net(rs[i as int]) == k,
        forall|k: i64| #[trigger] nets_of(sc, rs).contains_key(k) ==> exists|i: int| 0 <= i < rs.len() && request_net(rs[i]) == k,
    decreases rs.len(),
{
    if rs.len() > 0 {
        let pre = rs.drop_last();
        lemma_nets_place_each_pin_once(sc, pre);
        let m = nets_of(sc, pre);
        let j = rs.len() - 1;
        let k = request_net(rs.last());
        let full = nets_of(sc, rs);
        assert forall|i: int| 0 <= i < rs.len() implies {
            let n = full[request_net(#[trigger] rs[i])];
            &&& full.contains_key(request_net(rs[i]))
            &&& if request_pin(sc, rs[i]).direction == PinDirection::Input {
                n.sinks.contains(i as u32) && !n.drivers.contains(i as u32)
            } else {
                n.drivers.contains(i as u32) && !n.sinks.contains(i as u32)
            }
        } by {
            if i < j {
                assert(pre[i] == rs[i]);
                let ki = request_net(rs[i]);
                if ki == k {
                    let o = m[k];
                    assert(!o.drivers.contains(j as u32) || true);
                    if request_pin(sc, rs[i]).direction == PinDirection::Input {
                        assert(o.sinks.contains(i as u32));
                        let a = choose|a: int| 0 <= a < o.sinks.len() && o.sinks[a] == i as u32;
                        assert(o.sinks.push(j as u32)[a] == i as u32);
                        let ds = o.drivers.push(j as u32);
                        if ds.contains(i as u32) {
                            let b = choose|b: int| 0 <= b < ds.len() && ds[b] == i as u32;
                            if b < o.drivers.len() {
                                assert(o.drivers[b] == i as u32);
                            }
                        }
                    } else {
                        assert(o.drivers.contains(i as u32));
                        let a = choose|a: int| 0 <= a < o.drivers.len() && o.drivers[a] == i as u32;
                        assert(o.drivers.push(j as u32)[a] == i as u32);
                        let ss = o.sinks.push(j as u32);
                        if ss.contains(i as u32) {
                            let b = choose|b: int| 0 <= b < ss.len() && ss[b] == i as u32;
                            if b < o.sinks.len() {
                                assert(o.sinks[b] == i as u32);
                            }
                        }
                    }
                }
            } else {
                let o = if m.contains_key(k) { m[k] } else { NetView { drivers: Seq::empty(), sinks: Seq::empty() } };
                assert(o.drivers.push(j as u32)[o.drivers.len() as int] == j as u32);
                assert(o.sinks.push(j as u32)[o.sinks.len() as int] == j as u32);
                if o.drivers.contains(j as u32) {
                    let b = choose|b: int| 0 <= b < o.drivers.len() && o.drivers[b] == j as u32;
                    assert(m.contains_key(k) && m[k].drivers.contains(j as u32));
                }
                if o.sinks.contains(j as u32) {
                    let b = choose|b: int| 0 <= b < o.sinks.len() && o.sinks[b] == j as u32;
                    assert(m.contains_key(k) && m[k].sinks.contains(j as u32));
                }
            }
        }
        assert forall|kk: i64, i: u32| full.contains_key(kk) && #[trigger] full[kk].drivers.contains(i)
            implies i < rs.len() && request_net(rs[i as int]) == kk by {
            if kk == k {
                let o = if m.contains_key(k) { m[k] } else { NetView { drivers: Seq::empty(), sinks: Seq::empty() } };
                if i != j as u32 {
                    if full[kk].drivers.contains(i) {
                        let b = choose|b: int| 0 <= b < full[kk].drivers.len() && full[kk].drivers[b] == i;
                        if b < o.drivers.len() {
                            assert(o.drivers[b] == i);
                            assert(m.contains_key(k) && m[k].drivers.contains(i));
                        }
                    } else {
                        let b = choose|b: int| 0 <= b < full[kk].sinks.len() && full[kk].sinks[b] == i;
                        if b < o.sinks.len() {
                            assert(o.sinks[b] == i);
                            assert(m.contains_key(k) && m[k].sinks.contains(i));
                        }
                    }
                    assert(pre[i as int] == rs[i as int]);
                }
            } else {
                assert(m.contains_key(kk));
                assert(pre[i as int] == rs[i as int]);
            }
        }
        assert forall|kk: i64, i: u32| full.contains_key(kk) && #[trigger] full[kk].sinks.contains(i)
            implies i < rs.len() && request_net(rs[i as int]) == kk by {
            if kk == k {
                let o = if m.contains_key(k) { m[k] } else { NetView { drivers: Seq::empty(), sinks: Seq::empty() } };
                if i != j as u32 {
                    if full[kk].drivers.contains(i) {
                        let b = choose|b: int| 0 <= b < full[kk].drivers.len() && full[kk].drivers[b] == i;
                        if b < o.drivers.len() {
                            assert(o.drivers[b] == i);
                            assert(m.contains_key(k) && m[k].drivers.contains(i));
                        }
                    } else {
                        let b = choose|b: int| 0 <= b < full[kk].sinks.len() && full[kk].sinks[b] == i;
                        if b < o.sinks.len() {
                            assert(o.sinks[b] == i);
                            assert(m.contains_key(k) && m[k].sinks.contains(i));
                        }
                    }
                    assert(pre[i as int] == rs[i as int]);
                }
            } else {
                assert(m.contains_key(kk));
                assert(pre[i as int] == rs[i as int]);
            }
        }
        assert forall|kk: i64| #[trigger] full.contains_key(kk) implies exists|i: int| 0 <= i < rs.len() && request_net(rs[i]) == kk by {
            if kk != k {
                assert(m.contains_key(kk));
                let i = choose|i: int| 0 <= i < pre.len() && request_net(pre[i]) == kk;
                assert(pre[i] == rs[i]);
            } else {
                assert(request_net(rs[j]) == kk);
            }
        }
    }
}

/// Whether pin `i` is among the drivers or the sinks of net `n`.
pub open spec fn pin_in_net(n: NetView, i: u32) -> bool {
    n.drivers.contains(i) || n.sinks.contains(i)
}

/// Every pin of `pins` lies in exactly one of `nets`: among its drivers when the pin is an
/// output, among its sinks when it is an input, and not in the other list; and nets list only
/// pins of `pins`.
pub open spec fn places_each_pin_once(pins: Seq<Pin>, nets: Map<i64, NetView>) -> bool {
    &&& forall|i: int| 0 <= i < pins.len() ==> exists|k: i64| #[trigger] nets.contains_key(k) && if (#[trigger] pins[i]).direction == PinDirection::Input {
        nets[k].sinks.contains(i as u32) && !nets[k].drivers.contains(i as u32)
    } else {
        nets[k].drivers.contains(i as u32) && !nets[k].sinks.contains(i as u32)
    }
    &&& forall|k: i64, i: u32| nets.contains_key(k) && #[trigger] pin_in_net(nets[k], i) ==> i < pins.len()
    &&& forall|k1: i64, k2: i64, i: u32| nets.contains_key(k1) && nets.contains_key(k2)
        && #[trigger] pin_in_net(nets[k1], i) && #[trigger] pin_in_net(nets[k2], i) ==> k1 == k2
}

proof fn lemma_places_each_pin_once(sc: StructureCache, rs: Seq<PinRequest>)
    requires
        rs.len() <= u32::MAX + 1,
        first_error(sc, rs) is None,
    ensures
        places_each_pin_once(rs.map_values(|q: PinRequest| request_pin(sc, q)), nets_of(sc, rs)),
{
    lemma_nets_place_each_pin_once(sc, rs);
    let pins = rs.map_values(|q: PinRequest| request_pin(sc, q));
    let nets = nets_of(sc, rs);
    assert forall|i: int| 0 <= i < pins.len() implies exists|k: i64| #[trigger] nets.contains_key(k) && if (#[trigger] pins[i]).direction == PinDirection::Input {
        nets[k].sinks.contains(i as u32) && !nets[k].drivers.contains(i as u32)
    } else {
        nets[k].drivers.contains(i as u32) && !nets[k].sinks.contains(i as u32)
    } by {
        let k = request_net(rs[i]);
        assert(nets.contains_key(k));
    }
}

/// Every port has fewer than 2^31 bits.
pub open spec fn ports_are_narrow(cells: Seq<Cell>) -> bool {
    forall|c: int, p: int| 0 <= c < cells.len() && 0 <= p < cells[c].connection@.len()
        ==> (#[trigger] cells[c].connection@[p]).1.signal@.len() < 0x8000_0000
}

/// `s` is strictly increasing.
pub open spec fn strictly_increasing(s: Seq<u32>) -> bool {
    forall|i: int, j: int| 0 <= i < j < s.len() ==> s[i] < s[j]
}

proof fn lemma_first_error_persists(sc: StructureCache, rs: Seq<PinRequest>, k: int)
    requires
        0 <= k <= rs.len(),
        first_error(sc, rs.take(k)) is Some,
    ensures
        first_error(sc, rs) == first_error(sc, rs.take(k)),
    decreases rs.len(),
{
    if k == rs.len() {
        assert(rs.take(k) =~= rs);
    } else {
        assert(rs.drop_last().take(k) =~= rs.take(k));
        lemma_first_error_persists(sc, rs.drop_last(), k);
    }
}

proof fn lemma_nets_of_increasing(sc: StructureCache, rs: Seq<PinRequest>)
    requires
        rs.len() <= u32::MAX + 1,
    ensures
        forall|k: i64| #[trigger] nets_of(sc, rs).contains_key(k) ==> strictly_increasing(nets_of(sc, rs)[k].drivers)
            && strictly_increasing(nets_of(sc, rs)[k].sinks)
            && (forall|i: int| 0 <= i < nets_of(sc, rs)[k].drivers.len() ==> nets_of(sc, rs)[k].drivers[i] < rs.len())
            && (forall|i: int| 0 <= i < nets_of(sc, rs)[k].sinks.len() ==> nets_of(sc, rs)[k].sinks[i] < rs.len()),
    decreases rs.len(),
{
    if rs.len() > 0 {
        let p = rs.drop_last();
        lemma_nets_of_increasing(sc, p);
        let m = nets_of(sc, p);
        let i = (rs.len() - 1) as u32;
        assert(i == rs.len() - 1);
        assert forall|k: i64| #[trigger] nets_of(sc, rs).contains_key(k) implies strictly_increasing(nets_of(sc, rs)[k].drivers)
            && strictly_increasing(nets_of(sc, rs)[k].sinks)
            && (forall|j: int| 0 <= j < nets_of(sc, rs)[k].drivers.len() ==> nets_of(sc, rs)[k].drivers[j] < rs.len())
            && (forall|j: int| 0 <= j < nets_of(sc, rs)[k].sinks.len() ==> nets_of(sc, rs)[k].sinks[j] < rs.len()) by {
            if m.contains_key(k) {
                assert(strictly_increasing(m[k].drivers));
                assert(forall|j: int| 0 <= j < m[k].drivers.len() ==> m[k].drivers[j] < p.len());
                assert(forall|j: int| 0 <= j < m[k].sinks.len() ==> m[k].sinks[j] < p.len());
            }
        }
    }
}

impl Netlist {
    /// The pin metadata lookup of [`Netlist::new`].
    fn pin_metadata(structure_cache: &StructureCache, cell_type: &str, port: &str, bit_idx: usize) -> (r: Result<PinMetadata, NetlistError>)
        requires
            bit_idx < 0x8000_0000,
        ensures
            r == spec_pin_metadata(*structure_cache, cell_type@, port@, bit_idx as int),
    {
        if str_eq(cell_type, "MCPNR_LIGHTS") {
            if !str_eq(port, "I") {
                return Err(NetlistError::LightsPortUnsupported);
            }
            Ok(PinMetadata { offset_x: (bit_idx as u32) * 2, offset_y: 1, offset_z: 2, sig_derating: 0, direction: PinDirection::Input })
        } else if str_eq(cell_type, "MCPNR_SWITCHES") {
            if !str_eq(port, "O") {
                return Err(NetlistError::SwitchesPortUnsupported);
            }
            Ok(PinMetadata { offset_x: (bit_idx as u32) * 2, offset_y: 1, offset_z: 2, sig_derating: 0, direction: PinDirection::Output })
        } else {
            if bit_idx != 0 {
                return Err(NetlistError::MultiBitStructurePort);
            }
            match structure_cache.get(cell_type) {
                None => Err(NetlistError::UnknownCellType),
                Some(s) => match assoc_get(&s.pins, port) {
                    None => Err(NetlistError::UnknownPort),
                    Some(m) => Ok(*m),
                },
            }
        }
    }

    /// Add pin `pin_idx` to net `net_idx`, creating the net if needed.
    fn add_to_net(nets: &mut Vec<(i64, Net)>, net_idx: i64, pin_idx: u32, direction: PinDirection)
        requires
            forall|i: int, j: int| 0 <= i < j < old(nets)@.len() ==> old(nets)@[i].0 != old(nets)@[j].0,
        ensures
            forall|i: int, j: int| 0 <= i < j < final(nets)@.len() ==> final(nets)@[i].0 != final(nets)@[j].0,
            ({
                let m = net_map(old(nets)@);
                let old_net = if m.contains_key(net_idx) { m[net_idx] } else { NetView { drivers: Seq::empty(), sinks: Seq::empty() } };
                net_map(final(nets)@) == m.insert(net_idx, if direction == PinDirection::Input {
                    NetView { drivers: old_net.drivers, sinks: old_net.sinks.push(pin_idx) }
                } else {
                    NetView { drivers: old_net.drivers.push(pin_idx), sinks: old_net.sinks }
                })
            }),
    {
        let n = nets.len();
        let mut i: usize = 0;
        while i < n
            invariant
                n == nets@.len(),
                nets@ == old(nets)@,
                forall|a: int, b: int| 0 <= a < b < old(nets)@.len() ==> old(nets)@[a].0 != old(nets)@[b].0,
                i <= n,
                forall|j: int| 0 <= j < i ==> nets@[j].0 != net_idx,
            decreases n - i,
        {
            if nets[i].0 == net_idx {
                proof {
                    lemma_net_map_lookup(nets@, i as int);
                }
                let (k, mut net) = nets.remove(i);
                match direction {
                    PinDirection::Input => net.sinks.push(pin_idx),
                    PinDirection::Output => net.drivers.push(pin_idx),
                }
                nets.insert(i, (k, net));
                proof {
                    assert(nets@ =~= old(nets)@.update(i as int, (k, net)));
                    lemma_net_map_update(old(nets)@, i as int, net);
                    assert forall|a: int, b: int| 0 <= a < b < nets@.len() implies nets@[a].0 != nets@[b].0 by {
                        assert(nets@[a].0 == old(nets)@[a].0);
                        assert(nets@[b].0 == old(nets)@[b].0);
                    }
                }
                return;
            }
            i = i + 1;
        }
        proof {
            lemma_net_map_absent(nets@, net_idx);
        }
        let mut net = Net { drivers: Vec::new(), sinks: Vec::new() };
        match direction {
            PinDirection::Input => net.sinks.push(pin_idx),
            PinDirection::Output => net.drivers.push(pin_idx),
        }
        let ghost before = nets@;
        nets.push((net_idx, net));
        proof {
            assert(nets@.drop_last() =~= before);
            assert(net.drivers@ =~= Seq::<u32>::empty().push(pin_idx) || net.drivers@ =~= Seq::<u32>::empty());
        }
    }
}

proof fn lemma_net_map_lookup(s: Seq<(i64, Net)>, i: int)
    requires
        0 <= i < s.len(),
        forall|a: int, b: int| 0 <= a < b < s.len() ==> s[a].0 != s[b].0,
    ensures
        net_map(s).contains_key(s[i].0),
        net_map(s)[s[i].0] == s[i].1@,
    decreases s.len(),
{
    if i < s.len() - 1 {
        lemma_net_map_lookup(s.drop_last(), i);
    }
}

proof fn lemma_net_map_absent(s: Seq<(i64, Net)>, k: i64)
    requires
        forall|j: int| 0 <= j < s.len() ==> s[j].0 != k,
    ensures
        !net_map(s).contains_key(k),
    decreases s.len(),
{
    if s.len() > 0 {
        lemma_net_map_absent(s.drop_last(), k);
    }
}

proof fn lemma_net_map_update(s: Seq<(i64, Net)>, i: int, n: Net)
    requires
        0 <= i < s.len(),
        forall|a: int, b: int| 0 <= a < b < s.len() ==> s[a].0 != s[b].0,
    ensures
        net_map(s.update(i, (s[i].0, n))) == net_map(s).insert(s[i].0, n@),
    decreases s.len(),
{
    let t = s.update(i, (s[i].0, n));
    if i == s.len() - 1 {
        assert(t.drop_last() =~= s.drop_last());
        assert(net_map(t) =~= net_map(s).insert(s[i].0, n@));
    } else {
        assert(t.drop_last() =~= s.drop_last().update(i, (s[i].0, n)));
        lemma_net_map_update(s.drop_last(), i, n);
        assert(s.last().0 != s[i].0);
        assert(net_map(t) =~= net_map(s).insert(s[i].0, n@));
    }
}

/// `a` is a prefix of `b`.
pub open spec fn prefix_of(a: Seq<PinRequest>, b: Seq<PinRequest>) -> bool {
    a.len() <= b.len() && b.take(a.len() as int) == a
}

proof fn lemma_prefix_trans(a: Seq<PinRequest>, b: Seq<PinRequest>, c: Seq<PinRequest>)
    requires
        prefix_of(a, b),
        prefix_of(b, c),
    ensures
        prefix_of(a, c),
{
    assert(c.take(a.len() as int) =~= b.take(a.len() as int));
}

proof fn lemma_prefix_append(p: Seq<PinRequest>, a: Seq<PinRequest>, b: Seq<PinRequest>)
    requires
        prefix_of(a, b),
    ensures
        prefix_of(p + a, p + b),
        prefix_of(p, p + a),
{
    assert((p + b).take((p + a).len() as int) =~= p + a);
    assert((p + a).take(p.len() as int) =~= p);
}

proof fn lemma_port_requests_prefix(base: (u32, u32, u32), ty: Seq<char>, conns: Seq<(String, BitVector)>, a: int)
    requires
        0 <= a <= conns.len(),
    ensures
        prefix_of(port_requests(base, ty, conns.take(a)), port_requests(base, ty, conns)),
    decreases conns.len(),
{
    if a == conns.len() {
        assert(conns.take(a) =~= conns);
        assert(port_requests(base, ty, conns).take(port_requests(base, ty, conns).len() as int) =~= port_requests(base, ty, conns));
    } else {
        let d = conns.drop_last();
        lemma_port_requests_prefix(base, ty, d, a);
        assert(d.take(a) =~= conns.take(a));
        let tail = bit_requests(base, ty, conns.last().0@, conns.last().1.signal@);
        assert(prefix_of(tail, tail)) by {
            assert(tail.take(tail.len() as int) =~= tail);
        }
        lemma_prefix_append(port_requests(base, ty, d), tail, tail);
        lemma_prefix_trans(port_requests(base, ty, conns.take(a)), port_requests(base, ty, d), port_requests(base, ty, conns));
    }
}

proof fn lemma_design_requests_prefix(cells: Seq<Cell>, a: int)
    requires
        0 <= a <= cells.len(),
    ensures
        prefix_of(design_requests(cells.take(a)), design_requests(cells)),
    decreases cells.len(),
{
    if a == cells.len() {
        assert(cells.take(a) =~= cells);
        assert(design_requests(cells).take(design_requests(cells).len() as int) =~= design_requests(cells));
    } else {
        let d = cells.drop_last();
        lemma_design_requests_prefix(d, a);
        assert(d.take(a) =~= cells.take(a));
        let c = cells.last();
        let tail = port_requests(cell_base(c), c.ty@, c.connection@);
        assert(prefix_of(tail, tail)) by {
            assert(tail.take(tail.len() as int) =~= tail);
        }
        lemma_prefix_append(design_requests(d), tail, tail);
        lemma_prefix_trans(design_requests(cells.take(a)), design_requests(d), design_requests(cells));
    }
}

/// The request for bit `b` of port `p` of cell `c`.
pub open spec fn request_at(cells: Seq<Cell>, c: int, p: int, b: int) -> PinRequest {
    PinRequest {
        base: cell_base(cells[c]),
        ty: cells[c].ty@,
        port: cells[c].connection@[p].0@,
        bit: b,
        signal: cells[c].connection@[p].1.signal@[b],
    }
}

/// Every pin of the design fits in `u32` coordinates.
pub open spec fn design_pins_fit(sc: StructureCache, cells: Seq<Cell>) -> bool {
    forall|c: int, p: int, b: int| 0 <= c < cells.len() && 0 <= p < cells[c].connection@.len()
        && 0 <= b < cells[c].connection@[p].1.signal@.len() ==> request_fits(sc, #[trigger] request_at(cells, c, p, b))
}

impl Netlist {
    /// Turn every connected port bit of every cell into a pin, cell by cell, port by port,
    /// bit by bit, and group the pins by net number. Pin positions are the cell position plus
    /// the port's offset: lights and switches cells have one pin every two blocks along x,
    /// other cells take their single-bit pins from their structure.
    #[verifier::rlimit(60)]
    pub fn new(design: &PlacedDesign, structure_cache: &StructureCache) -> (r: Result<Netlist, NetlistError>)
        requires
            ports_are_narrow(design.cells@),
            design_pins_fit(*structure_cache, design.cells@),
        ensures
            ({
                let rs = design_requests(design.cells@);
                match r {
                    Ok(n) => first_error(*structure_cache, rs) is None
                        && n.wf()
                        && n@.pins == rs.map_values(|q: PinRequest| request_pin(*structure_cache, q))
                        && n@.nets == nets_of(*structure_cache, rs)
                        && places_each_pin_once(n@.pins, n@.nets)
                        && forall|k: i64| #[trigger] n@.nets.contains_key(k) ==> strictly_increasing(n@.nets[k].drivers)
                            && strictly_increasing(n@.nets[k].sinks),
                    Err(e) => first_error(*structure_cache, rs) == Some(e),
                }
            }),
    {
        let ghost sc = *structure_cache;
        let ghost cells = design.cells@;
        let ghost full = design_requests(cells);
        let mut pins: Vec<Pin> = Vec::new();
        let mut nets: Vec<(i64, Net)> = Vec::new();
        let ghost mut done: Seq<PinRequest> = Seq::empty();
        let n_cells = design.cells.len();
        let mut ci: usize = 0;
        proof {
            assert(cells.take(0) =~= Seq::<Cell>::empty());
        }
        while ci < n_cells
            invariant
                sc == *structure_cache,
                cells == design.cells@,
                full == design_requests(cells),
                n_cells == cells.len(),
                ci <= n_cells,
                ports_are_narrow(cells),
                design_pins_fit(sc, cells),
                done == design_requests(cells.take(ci as int)),
                first_error(sc, done) is None,
                pins@ == done.map_values(|q: PinRequest| request_pin(sc, q)),
                net_map(nets@) == nets_of(sc, done),
                forall|a: int, b: int| 0 <= a < b < nets@.len() ==> nets@[a].0 != nets@[b].0,
            decreases n_cells - ci,
        {
            let cell = &design.cells[ci];
            let base: (u32, u32, u32) = match cell.pos {
                Some(p) => (p.x, p.y, p.z),
                None => (0, 0, 0),
            };
            let ghost conns = cell.connection@;
            let ghost ty = cell.ty@;
            let ghost start = done;
            let n_ports = cell.connection.len();
            let mut pi: usize = 0;
            proof {
                assert(conns.take(0) =~= Seq::<(String, BitVector)>::empty());
                assert(start + port_requests(base, ty, conns.take(0)) =~= start);
                assert(cells[ci as int] == *cell);
            }
            while pi < n_ports
                invariant
                    sc == *structure_cache,
                    cells == design.cells@,
                    full == design_requests(cells),
                    n_cells == cells.len(),
                    ci < n_cells,
                    cells[ci as int] == *cell,
                    conns == cell.connection@,
                    ty == cell.ty@,
                    base == cell_base(*cell),
                    n_ports == conns.len(),
                    pi <= n_ports,
                    ports_are_narrow(cells),
                    design_pins_fit(sc, cells),
                    start == design_requests(cells.take(ci as int)),
                    done == start + port_requests(base, ty, conns.take(pi as int)),
                    first_error(sc, done) is None,
                    pins@ == done.map_values(|q: PinRequest| request_pin(sc, q)),
                    net_map(nets@) == nets_of(sc, done),
                    forall|a: int, b: int| 0 <= a < b < nets@.len() ==> nets@[a].0 != nets@[b].0,
                decreases n_ports - pi,
            {
                let port = &cell.connection[pi].0;
                let bits = &cell.connection[pi].1;
                let ghost mid = done;
                let n_bits = bits.signal.len();
                let mut bi: usize = 0;
                proof {
                    assert(bits.signal@.take(0) =~= Seq::<Signal>::empty());
                    assert(mid + bit_requests(base, ty, port@, bits.signal@.take(0)) =~= mid);
                    assert(n_bits < 0x8000_0000) by {
                        assert(cells[ci as int].connection@[pi as int].1.signal@.len() < 0x8000_0000);
                    }
                }
                while bi < n_bits
                    invariant
                        sc == *structure_cache,
                        cells == design.cells@,
                        full == design_requests(cells),
                        ci < cells.len(),
                        cells[ci as int] == *cell,
                        conns == cell.connection@,
                        ty == cell.ty@,
                        base == cell_base(*cell),
                        pi < conns.len(),
                        conns[pi as int].0 == *port,
                        conns[pi as int].1 == *bits,
                        n_bits == bits.signal@.len(),
                        n_bits < 0x8000_0000,
                        bi <= n_bits,
                        design_pins_fit(sc, cells),
                        start == design_requests(cells.take(ci as int)),
                        mid == start + port_requests(base, ty, conns.take(pi as int)),
                        done == mid + bit_requests(base, ty, port@, bits.signal@.take(bi as int)),
                        first_error(sc, done) is None,
                        pins@ == done.map_values(|q: PinRequest| request_pin(sc, q)),
                        net_map(nets@) == nets_of(sc, done),
                        forall|a: int, b: int| 0 <= a < b < nets@.len() ==> nets@[a].0 != nets@[b].0,
                    decreases n_bits - bi,
                {
                    let net = bits.signal[bi];
                    let ghost req = request_at(cells, ci as int, pi as int, bi as int);
                    let ghost next = done.push(req);
                    proof {
                        assert(bit_requests(base, ty, port@, bits.signal@.take(bi + 1))
                            =~= bit_requests(base, ty, port@, bits.signal@.take(bi as int)).push(req));
                        assert(next == mid + bit_requests(base, ty, port@, bits.signal@.take(bi + 1)));
                        assert(next.drop_last() =~= done);
                        // `next` is a prefix of all requests, so its first error is theirs.
                        lemma_design_requests_prefix(cells, ci + 1);
                        assert(cells.take(ci + 1).drop_last() =~= cells.take(ci as int));
                        assert(cells.take(ci + 1).last() == *cell);
                        lemma_port_requests_prefix(base, ty, conns, pi + 1);
                        assert(conns.take(pi + 1).drop_last() =~= conns.take(pi as int));
                        let whole_bits = bit_requests(base, ty, port@, bits.signal@);
                        let some_bits = bit_requests(base, ty, port@, bits.signal@.take(bi + 1));
                        assert(prefix_of(some_bits, whole_bits)) by {
                            assert(whole_bits.take(some_bits.len() as int) =~= some_bits);
                        }
                        lemma_prefix_append(port_requests(base, ty, conns.take(pi as int)), some_bits, whole_bits);
                        lemma_prefix_trans(port_requests(base, ty, conns.take(pi as int)) + some_bits,
                            port_requests(base, ty, conns.take(pi + 1)), port_requests(base, ty, conns));
                        lemma_prefix_append(start, port_requests(base, ty, conns.take(pi as int)) + some_bits, port_requests(base, ty, conns));
                        assert(start + (port_requests(base, ty, conns.take(pi as int)) + some_bits) =~= next);
                        lemma_prefix_trans(next, design_requests(cells.take(ci + 1)), full);
                        assert(full.take(next.len() as int) == next);
                        assert(request_fits(sc, req));
                    }
                    let m = match Netlist::pin_metadata(structure_cache, cell.ty.as_str(), port.as_str(), bi) {
                        Ok(m) => m,
                        Err(e) => {
                            proof { lemma_first_error_persists(sc, full, next.len() as int); }
                            return Err(e);
                        },
                    };
                    let net_idx = match net.ty {
                        Some(SignalType::Id(x)) => x,
                        other => {
                            proof { lemma_first_error_persists(sc, full, next.len() as int); }
                            return Err(NetlistError::UnsupportedNetIndexType(other));
                        },
                    };
                    if pins.len() > 0xffff_ffff {
                        proof { lemma_first_error_persists(sc, full, next.len() as int); }
                        return Err(NetlistError::PinCountExceeded);
                    }
                    let pin_idx = pins.len() as u32;
                    pins.push(Pin { x: base.0 + m.offset_x, y: base.1 + m.offset_y, z: base.2 + m.offset_z, direction: m.direction });
                    Netlist::add_to_net(&mut nets, net_idx, pin_idx, m.direction);
                    proof {
                        done = next;
                        assert(pins@ =~= done.map_values(|q: PinRequest| request_pin(sc, q)));
                    }
                    bi = bi + 1;
                }
                proof {
                    assert(bits.signal@.take(n_bits as int) =~= bits.signal@);
                    assert(conns.take(pi + 1).drop_last() =~= conns.take(pi as int));
                    assert(done =~= start + port_requests(base, ty, conns.take(pi + 1)));
                }
                pi = pi + 1;
            }
            proof {
                assert(conns.take(n_ports as int) =~= conns);
                assert(cells.take(ci + 1).drop_last() =~= cells.take(ci as int));
                assert(done =~= design_requests(cells.take(ci + 1)));
            }
            ci = ci + 1;
        }
        proof {
            assert(cells.take(n_cells as int) =~= cells);
            if done.len() > 0 {
                assert(request_error(sc, done.last(), done.len() - 1) is None);
            }
            lemma_nets_of_increasing(sc, done);
            assert forall|i: int| 0 <= i < nets@.len() implies #[trigger] net_fits(nets@[i].1@, pins@.len()) by {
                lemma_net_map_lookup(nets@, i);
                assert(net_map(nets@).contains_key(nets@[i].0));
            }
            lemma_nets_place_each_pin_once(sc, done);
            lemma_places_each_pin_once(sc, done);
        }
        Ok(Netlist { pins, nets })
    }
}

/// The pins of `n` are in increasing order and all below `count`.
pub open spec fn net_fits(n: NetView, count: nat) -> bool {
    &&& strictly_increasing(n.drivers)
    &&& strictly_increasing(n.sinks)
    &&& forall|i: int| 0 <= i < n.drivers.len() ==> n.drivers[i] < count
    &&& forall|i: int| 0 <= i < n.sinks.len() ==> n.sinks[i] < count
}

/// `Itertools::sorted_by_key` on the net number: by its source, it collects the entries into a
/// vector and sorts them with the standard stable sort by that key, so the result holds the
/// same entries in non-decreasing order of net number.
#[verifier::external_body]
fn sorted_by_net_number(entries: Vec<(i64, usize)>) -> (r: Vec<(i64, usize)>)
    ensures
        r@.to_multiset() == entries@.to_multiset(),
        forall|i: int, j: int| 0 <= i < j < r@.len() ==> r@[i].0 <= r@[j].0,
{
    entries.into_iter().sorted_by_key(|e| e.0).collect()
}

impl Netlist {
    /// Net numbers are distinct, and each net lists, in increasing order, pins of the netlist.
    pub closed spec fn wf(&self) -> bool {
        &&& forall|a: int, b: int| 0 <= a < b < self.nets@.len() ==> self.nets@[a].0 != self.nets@[b].0
        &&& forall|i: int| 0 <= i < self.nets@.len() ==> #[trigger] net_fits(self.nets@[i].1@, self.pins@.len())
    }

    /// Every net of a well-formed netlist lists pins of the netlist in increasing order.
    pub proof fn lemma_wf_nets(&self)
        requires
            self.wf(),
        ensures
            forall|k: i64| #[trigger] self@.nets.contains_key(k) ==> net_fits(self@.nets[k], self@.pins.len()),
    {
        assert forall|k: i64| #[trigger] self@.nets.contains_key(k) implies net_fits(self@.nets[k], self@.pins.len()) by {
            lemma_net_map_has_entry(self.nets@, k);
            let i = choose|i: int| 0 <= i < self.nets@.len() && self.nets@[i].0 == k;
            lemma_net_map_lookup(self.nets@, i);
        }
    }

    /// All pins, in the order they were made.
    pub fn iter_pins(&self) -> (r: &[Pin])
        ensures
            r@ == self@.pins,
    {
        self.pins.as_slice()
    }

    /// All nets with their numbers, in increasing order of number.
    pub fn iter_nets(&self) -> (r: Vec<(i64, &Net)>)
        requires
            self.wf(),
        ensures
            forall|i: int| 0 <= i < r@.len() ==> self@.nets.contains_key(#[trigger] r@[i].0) && self@.nets[r@[i].0] == r@[i].1@,
            forall|k: i64| #[trigger] self@.nets.contains_key(k) ==> exists|i: int| 0 <= i < r@.len() && r@[i].0 == k,
            forall|i: int, j: int| 0 <= i < j < r@.len() ==> r@[i].0 < r@[j].0,
    {
        broadcast use vstd::seq_lib::group_to_multiset_ensures;
        let n = self.nets.len();
        let mut entries: Vec<(i64, usize)> = Vec::new();
        let mut i: usize = 0;
        while i < n
            invariant
                n == self.nets@.len(),
                i <= n,
                entries@.len() == i,
                forall|j: int| 0 <= j < i ==> #[trigger] entries@[j] == (self.nets@[j].0, j as usize),
            decreases n - i,
        {
            entries.push((self.nets[i].0, i));
            i = i + 1;
        }
        let ghost e0 = entries@;
        let sorted = sorted_by_net_number(entries);
        let mut r: Vec<(i64, &Net)> = Vec::new();
        let m = sorted.len();
        let mut t: usize = 0;
        proof {
            assert forall|j: int| 0 <= j < m implies (#[trigger] sorted@[j]).1 < n && self.nets@[sorted@[j].1 as int].0 == sorted@[j].0 by {
                assert(sorted@.to_multiset().count(sorted@[j]) > 0);
                assert(e0.contains(sorted@[j]));
            }
        }
        while t < m
            invariant
                self.wf(),
                n == self.nets@.len(),
                m == sorted@.len(),
                t <= m,
                r@.len() == t,
                forall|j: int| 0 <= j < m ==> (#[trigger] sorted@[j]).1 < n && self.nets@[sorted@[j].1 as int].0 == sorted@[j].0,
                forall|j: int| 0 <= j < t ==> #[trigger] r@[j].0 == sorted@[j].0 && r@[j].1@ == self.nets@[sorted@[j].1 as int].1@,
            decreases m - t,
        {
            let (k, pos) = sorted[t];
            r.push((k, &self.nets[pos].1));
            t = t + 1;
        }
        proof {
            assert forall|j: int| 0 <= j < r@.len() implies self@.nets.contains_key(#[trigger] r@[j].0) && self@.nets[r@[j].0] == r@[j].1@ by {
                lemma_net_map_lookup(self.nets@, sorted@[j].1 as int);
            }
            assert forall|k: i64| #[trigger] self@.nets.contains_key(k) implies exists|j: int| 0 <= j < r@.len() && r@[j].0 == k by {
                lemma_net_map_has_entry(self.nets@, k);
                let i = choose|i: int| 0 <= i < self.nets@.len() && self.nets@[i].0 == k;
                assert(e0[i] == (k, i as usize));
                assert(e0.to_multiset().count(e0[i]) > 0);
                assert(sorted@.contains(e0[i]));
                let j = choose|j: int| 0 <= j < sorted@.len() && sorted@[j] == e0[i];
                assert(r@[j].0 == k);
            }
            assert forall|a: int, b: int| 0 <= a < b < r@.len() implies r@[a].0 < r@[b].0 by {
                if r@[a].0 == r@[b].0 {
                    // Equal numbers would come from one entry listed twice.
                    let pa = sorted@[a].1 as int;
                    let pb = sorted@[b].1 as int;
                    assert(pa == pb);
                    assert(sorted@[a] == sorted@[b]);
                    lemma_no_duplicate_entries(e0, sorted@);
                }
            }
        }
        r
    }
}

proof fn lemma_no_duplicate_entries(e0: Seq<(i64, usize)>, s: Seq<(i64, usize)>)
    requires
        s.to_multiset() == e0.to_multiset(),
        e0.len() <= usize::MAX,
        forall|j: int| 0 <= j < e0.len() ==> #[trigger] e0[j] == (e0[j].0, j as usize),
    ensures
        s.no_duplicates(),
{
    broadcast use vstd::seq_lib::group_to_multiset_ensures;
    assert(e0.no_duplicates()) by {
        assert forall|i: int, j: int| 0 <= i < e0.len() && 0 <= j < e0.len() && i != j implies e0[i] != e0[j] by {
            assert(e0[i].1 == i as usize);
            assert(e0[j].1 == j as usize);
        }
    }
    e0.lemma_multiset_has_no_duplicates();
    assert forall|a: int, b: int| 0 <= a < s.len() && 0 <= b < s.len() && a != b implies s[a] != s[b] by {
        if s[a] == s[b] {
            let x = s[a];
            let (lo, hi) = if a < b { (a, b) } else { (b, a) };
            assert(s.remove(hi).to_multiset() == s.to_multiset().remove(x));
            assert(s.remove(hi)[lo] == x);
            assert(s.remove(hi).contains(x));
            assert(s.remove(hi).to_multiset().count(x) > 0);
            assert(s.to_multiset().count(x) >= 2);
        }
    }
}

proof fn lemma_net_map_has_entry(s: Seq<(i64, Net)>, k: i64)
    requires
        net_map(s).contains_key(k),
    ensures
        exists|i: int| 0 <= i < s.len() && s[i].0 == k,
    decreases s.len(),
{
    if s.last().0 != k {
        lemma_net_map_has_entry(s.drop_last(), k);
        let i = choose|i: int| 0 <= i < s.drop_last().len() && s.drop_last()[i].0 == k;
        assert(s[i].0 == k);
    }
}

impl Net {
    /// The driver pins of this net in `parent`, in increasing pin order.
    pub fn iter_drivers(&self, parent: &Netlist) -> (r: Vec<Pin>)
        requires
            forall|i: int| 0 <= i < self@.drivers.len() ==> self@.drivers[i] < parent@.pins.len(),
        ensures
            r@ == self@.drivers.map_values(|i: u32| parent@.pins[i as int]),
    {
        let mut r: Vec<Pin> = Vec::new();
        let n = self.drivers.len();
        let mut i: usize = 0;
        while i < n
            invariant
                n == self@.drivers.len(),
                i <= n,
                forall|j: int| 0 <= j < n ==> self@.drivers[j] < parent@.pins.len(),
                r@ == self@.drivers.take(i as int).map_values(|i: u32| parent@.pins[i as int]),
            decreases n - i,
        {
            r.push(parent.pins[self.drivers[i] as usize]);
            proof {
                assert(self@.drivers.take(i + 1) =~= self@.drivers.take(i as int).push(self@.drivers[i as int]));
                assert(r@ =~= self@.drivers.take(i + 1).map_values(|i: u32| parent@.pins[i as int]));
            }
            i = i + 1;
        }
        proof {
            assert(self@.drivers.take(n as int) =~= self@.drivers);
        }
        r
    }

    /// The sink pins of this net in `parent`, in increasing pin order.
    pub fn iter_sinks(&self, parent: &Netlist) -> (r: Vec<Pin>)
        requires
            forall|i: int| 0 <= i < self@.sinks.len() ==> self@.sinks[i] < parent@.pins.len(),
        ensures
            r@ == self@.sinks.map_values(|i: u32| parent@.pins[i as int]),
    {
        let mut r: Vec<Pin> = Vec::new();
        let n = self.sinks.len();
        let mut i: usize = 0;
        while i < n
            invariant
                n == self@.sinks.len(),
                i <= n,
                forall|j: int| 0 <= j < n ==> self@.sinks[j] < parent@.pins.len(),
                r@ == self@.sinks.take(i as int).map_values(|i: u32| parent@.pins[i as int]),
            decreases n - i,
        {
            r.push(parent.pins[self.sinks[i] as usize]);
            proof {
                assert(self@.sinks.take(i + 1) =~= self@.sinks.take(i as int).push(self@.sinks[i as int]));
                assert(r@ =~= self@.sinks.take(i + 1).map_values(|i: u32| parent@.pins[i as int]));
            }
            i = i + 1;
        }
        proof {
            assert(self@.sinks.take(n as int) =~= self@.sinks);
        }
        r
    }
}

} // verus!
