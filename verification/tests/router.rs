use mcpnr_pnr::block_storage::BlockStorage;
use mcpnr_pnr::design::{BitVector, Cell, PlacedDesign, Position, Signal, SignalType};
use mcpnr_pnr::netlist::Netlist;
use mcpnr_pnr::router::{build_output, do_route, RouterError};
use mcpnr_pnr::splat::Splatter;
use mcpnr_pnr::structure_cache::{NbtTag, PaletteBlock, SignText, Structure, StructureBlock, StructureCache};


/// A sign line as stored: a JSON text component.
fn line(t: &str) -> String {
    format!("{{\"text\":\"{}\"}}", t)
}

fn pin_structure(name: &str, dir: &str, rotation: &str) -> Structure {
    Structure {
        data_version: 0,
        size: [2, 2, 2],
        palette: vec![PaletteBlock {
            name: "minecraft:oak_sign".to_string(),
            properties: Some(vec![("rotation".to_string(), NbtTag::String(rotation.to_string()))]),
        }],
        blocks: vec![StructureBlock {
            state: 0,
            pos: [0, 1, 0],
            sign: Some(SignText { text1: line(name), text2: line(dir), text3: line("") }),
        }],
    }
}

fn cell(ty: &str, x: u32, port: &str, net: i64) -> Cell {
    Cell {
        pos: Some(Position { x, y: 0, z: 0 }),
        ty: ty.to_string(),
        parameter: vec![],
        attribute: vec![],
        connection: vec![(port.to_string(), BitVector { signal: vec![Signal { ty: Some(SignalType::Id(net)) }] })],
    }
}

fn count_named(o: &BlockStorage, name: &str) -> usize {
    let mut it = o.iter_block_coords();
    let mut n = 0;
    while let Some((_, b)) = it.next() {
        if o.info_for_index(b).unwrap().name == name {
            n += 1;
        }
    }
    n
}

fn two_cell_design(sink_rotation: &str) -> (StructureCache, Netlist) {
    let cache = StructureCache::new(vec![
        ("drv.nbt".to_string(), pin_structure("Y", "OUTPUT", "8")),
        ("snk.nbt".to_string(), pin_structure("A", "INPUT", sink_rotation)),
    ])
    .unwrap();
    let design = PlacedDesign { creator: String::new(), nets: vec![], cells: vec![cell("drv.nbt", 0, "Y", 5), cell("snk.nbt", 8, "A", 5)] };
    let netlist = Netlist::new(&design, &cache).unwrap();
    (cache, netlist)
}

fn splat_design(cache: &mut StructureCache, netlist: &Netlist) -> BlockStorage {
    let mut output = build_output(1, netlist);
    cache.build_palette_maps(&mut output).unwrap();
    let design = PlacedDesign { creator: String::new(), nets: vec![], cells: vec![cell("drv.nbt", 0, "Y", 5), cell("snk.nbt", 8, "A", 5)] };
    let s = Splatter::new(&mut output, cache);
    for c in design.cells.iter() {
        s.splat_cell(c, &mut output).unwrap();
    }
    output
}

#[test]
fn driver_pin_facing_off_the_grid_fails() {
    let cache = StructureCache::new(vec![
        ("drv.nbt".to_string(), pin_structure("Y", "OUTPUT", "0")),
        ("snk.nbt".to_string(), pin_structure("A", "INPUT", "0")),
    ])
    .unwrap();
    let design = PlacedDesign { creator: String::new(), nets: vec![], cells: vec![cell("drv.nbt", 0, "Y", 5), cell("snk.nbt", 8, "A", 5)] };
    let netlist = Netlist::new(&design, &cache).unwrap();
    let mut cache = cache;
    let mut output = splat_design(&mut cache, &netlist);
    assert!(matches!(do_route(1, &netlist, &mut output), Err(RouterError::Routing(_))));
}

#[test]
fn output_covers_pins_with_margin() {
    let (_, netlist) = two_cell_design("0");
    let o = build_output(1, &netlist);
    assert_eq!(o.extents(), &[12, 16, 4]);
}

#[test]
fn a_two_pin_net_is_routed_and_drawn() {
    let (mut cache, netlist) = two_cell_design("0");
    let mut output = splat_design(&mut cache, &netlist);
    assert_eq!(count_named(&output, "minecraft:oak_sign"), 2);
    assert_eq!(count_named(&output, "minecraft:redstone_wire"), 0);
    do_route(1, &netlist, &mut output).unwrap();
    assert!(count_named(&output, "minecraft:redstone_wire") > 0);
    assert_eq!(count_named(&output, "minecraft:oak_sign"), 2);
}

#[test]
fn unparsable_pin_rotation_is_reported() {
    let (mut cache, netlist) = two_cell_design("sideways");
    let mut output = splat_design(&mut cache, &netlist);
    assert_eq!(do_route(1, &netlist, &mut output), Err(RouterError::RotationUnparsable));
}

#[test]
fn missing_pin_sign_is_reported() {
    let (_, netlist) = two_cell_design("0");
    let mut output = build_output(1, &netlist);
    assert!(matches!(do_route(1, &netlist, &mut output), Err(RouterError::PinNotFound(_))));
}
