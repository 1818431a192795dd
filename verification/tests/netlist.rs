use mcpnr_pnr::design::{BitVector, Cell, PlacedDesign, Position, Signal, SignalType};
use mcpnr_pnr::netlist::{Netlist, NetlistError, Pin, PinDirection};
use mcpnr_pnr::structure_cache::{SignText, Structure, StructureBlock, StructureCache};

fn bits(ids: &[SignalType]) -> BitVector {
    BitVector { signal: ids.iter().map(|t| Signal { ty: Some(*t) }).collect() }
}

fn cell(ty: &str, pos: (u32, u32, u32), conns: Vec<(&str, BitVector)>) -> Cell {
    Cell {
        pos: Some(Position { x: pos.0, y: pos.1, z: pos.2 }),
        ty: ty.to_string(),
        parameter: vec![],
        attribute: vec![],
        connection: conns.into_iter().map(|(k, v)| (k.to_string(), v)).collect(),
    }
}

/// A sign line as stored: a JSON text component.
fn line(t: &str) -> String {
    format!("{{\"text\":\"{}\"}}", t)
}

fn sign(pos: [i32; 3], name: &str, dir: &str) -> StructureBlock {
    StructureBlock {
        state: 0,
        pos,
        sign: Some(SignText { text1: line(name), text2: line(dir), text3: line("") }),
    }
}

fn cache() -> StructureCache {
    let buf = Structure {
        data_version: 0,
        size: [2, 2, 4],
        palette: vec![],
        blocks: vec![sign([1, 1, 0], "A", "INPUT"), sign([1, 1, 3], "Y", "OUTPUT")],
    };
    StructureCache::new(vec![("buf.nbt".to_string(), buf)]).unwrap()
}

fn design(cells: Vec<Cell>) -> PlacedDesign {
    PlacedDesign { creator: String::new(), nets: vec![], cells }
}

fn pin(x: u32, y: u32, z: u32, direction: PinDirection) -> Pin {
    Pin { x, y, z, direction }
}

#[test]
fn pins_and_nets_of_a_small_design() {
    let id = SignalType::Id;
    let d = design(vec![
        cell("MCPNR_SWITCHES", (0, 0, 0), vec![("O", bits(&[id(1), id(2)]))]),
        cell("MCPNR_LIGHTS", (0, 0, 10), vec![("I", bits(&[id(1), id(2)]))]),
        cell("buf.nbt", (4, 0, 4), vec![("A", bits(&[id(2)])), ("Y", bits(&[id(3)]))]),
    ]);
    let n = Netlist::new(&d, &cache()).unwrap();
    assert_eq!(
        n.iter_pins(),
        &[
            pin(0, 1, 2, PinDirection::Output),
            pin(2, 1, 2, PinDirection::Output),
            pin(0, 1, 12, PinDirection::Input),
            pin(2, 1, 12, PinDirection::Input),
            pin(5, 1, 4, PinDirection::Input),
            pin(5, 1, 7, PinDirection::Output),
        ]
    );
    let nets = n.iter_nets();
    let numbers: Vec<i64> = nets.iter().map(|e| e.0).collect();
    assert_eq!(numbers, vec![1, 2, 3]);
    assert_eq!(nets[0].1.iter_drivers(&n), vec![pin(0, 1, 2, PinDirection::Output)]);
    assert_eq!(nets[0].1.iter_sinks(&n), vec![pin(0, 1, 12, PinDirection::Input)]);
    assert_eq!(nets[1].1.iter_drivers(&n), vec![pin(2, 1, 2, PinDirection::Output)]);
    assert_eq!(
        nets[1].1.iter_sinks(&n),
        vec![pin(2, 1, 12, PinDirection::Input), pin(5, 1, 4, PinDirection::Input)]
    );
    assert_eq!(nets[2].1.iter_drivers(&n), vec![pin(5, 1, 7, PinDirection::Output)]);
    assert!(nets[2].1.iter_sinks(&n).is_empty());
}

#[test]
fn netlist_errors() {
    let id = SignalType::Id;
    let sc = cache();
    let d = design(vec![cell("MCPNR_LIGHTS", (0, 0, 0), vec![("O", bits(&[id(1)]))])]);
    assert_eq!(Netlist::new(&d, &sc).err(), Some(NetlistError::LightsPortUnsupported));
    let d = design(vec![cell("MCPNR_SWITCHES", (0, 0, 0), vec![("I", bits(&[id(1)]))])]);
    assert_eq!(Netlist::new(&d, &sc).err(), Some(NetlistError::SwitchesPortUnsupported));
    let d = design(vec![cell("nand.nbt", (0, 0, 0), vec![("A", bits(&[id(1)]))])]);
    assert_eq!(Netlist::new(&d, &sc).err(), Some(NetlistError::UnknownCellType));
    let d = design(vec![cell("buf.nbt", (0, 0, 0), vec![("B", bits(&[id(1)]))])]);
    assert_eq!(Netlist::new(&d, &sc).err(), Some(NetlistError::UnknownPort));
    let d = design(vec![cell("buf.nbt", (0, 0, 0), vec![("A", bits(&[id(1), id(2)]))])]);
    assert_eq!(Netlist::new(&d, &sc).err(), Some(NetlistError::MultiBitStructurePort));
    let d = design(vec![cell("buf.nbt", (0, 0, 0), vec![("A", bits(&[SignalType::Constant(1)]))])]);
    assert_eq!(
        Netlist::new(&d, &sc).err(),
        Some(NetlistError::UnsupportedNetIndexType(Some(SignalType::Constant(1))))
    );
}
