use mcpnr_pnr::block_storage::{BlockStorage, BlockTypeIndex};
use mcpnr_pnr::design::{Cell, Parameter, ParameterValue, Position};
use mcpnr_pnr::splat::{CellSplatError, Splatter};
use mcpnr_pnr::structure_cache::{PaletteBlock, Structure, StructureBlock, StructureCache};

fn empty_cache() -> StructureCache {
    StructureCache::new(vec![]).unwrap()
}

fn io_cell(ty: &str, param: &str, n: i64, pos: (u32, u32, u32)) -> Cell {
    Cell {
        pos: Some(Position { x: pos.0, y: pos.1, z: pos.2 }),
        ty: ty.to_string(),
        parameter: vec![(param.to_string(), Parameter { value: Some(ParameterValue::Int(n)) })],
        attribute: vec![],
        connection: vec![],
    }
}

fn at(o: &BlockStorage, x: u32, y: u32, z: u32) -> u32 {
    o.get_block(x, y, z).unwrap().0
}

#[test]
fn splatter_registers_common_blocks() {
    let mut o = BlockStorage::new(4, 2, 4);
    let sc = empty_cache();
    let s = Splatter::new(&mut o, &sc);
    assert_eq!(s.air, BlockTypeIndex(0));
    assert_eq!(o.info_for_index(s.calcite).unwrap().name, "minecraft:calcite");
    assert_eq!(o.info_for_index(s.redstone_lamp).unwrap().name, "minecraft:redstone_lamp");
    assert_eq!(o.info_for_index(s.switch).unwrap().name, "minecraft:lever");
    assert_eq!(o.info_for_index(s.wool).unwrap().name, "minecraft:black_wool");
}

#[test]
fn lights_are_drawn_two_blocks_apart() {
    let mut o = BlockStorage::new(5, 2, 3);
    let sc = empty_cache();
    let s = Splatter::new(&mut o, &sc);
    s.splat_cell(&io_cell("MCPNR_LIGHTS", "NLIGHT", 2, (0, 0, 0)), &mut o).unwrap();
    let (c, l) = (s.calcite.0, s.redstone_lamp.0);
    for x in [0, 2] {
        assert_eq!(at(&o, x, 1, 1), l);
        assert_eq!(at(&o, x, 0, 2), l);
        assert_eq!(at(&o, x, 0, 1), c);
        assert_eq!(at(&o, x + 1, 1, 1), c);
        assert_eq!(at(&o, x, 0, 0), 0);
    }
    assert_eq!(at(&o, 4, 1, 1), 0);
}

#[test]
fn switches_are_levers_on_calcite() {
    let mut o = BlockStorage::new(2, 2, 3);
    let sc = empty_cache();
    let s = Splatter::new(&mut o, &sc);
    s.splat_cell(&io_cell("MCPNR_SWITCHES", "NSWITCH", 1, (0, 0, 0)), &mut o).unwrap();
    assert_eq!(at(&o, 0, 1, 0), s.switch.0);
    assert_eq!(at(&o, 0, 0, 2), s.calcite.0);
    assert_eq!(at(&o, 1, 1, 1), s.calcite.0);
    assert_eq!(at(&o, 1, 1, 0), 0);
}

#[test]
fn cells_past_the_edge_fail() {
    let mut o = BlockStorage::new(2, 2, 3);
    let sc = empty_cache();
    let s = Splatter::new(&mut o, &sc);
    let r = s.splat_cell(&io_cell("MCPNR_LIGHTS", "NLIGHT", 2, (0, 0, 0)), &mut o);
    assert!(matches!(r, Err(CellSplatError::Storage(_))));
}

#[test]
fn border_is_wool() {
    let mut o = BlockStorage::new(4, 1, 3);
    let sc = empty_cache();
    let s = Splatter::new(&mut o, &sc);
    s.draw_border(&mut o).unwrap();
    for x in 0..4 {
        assert_eq!(at(&o, x, 0, 0), s.wool.0);
        assert_eq!(at(&o, x, 0, 2), s.wool.0);
    }
    assert_eq!(at(&o, 0, 0, 1), s.wool.0);
    assert_eq!(at(&o, 3, 0, 1), s.wool.0);
    assert_eq!(at(&o, 1, 0, 1), 0);
    assert_eq!(at(&o, 2, 0, 1), 0);
}

#[test]
fn structure_cells_copy_their_blocks() {
    let st = Structure {
        data_version: 0,
        size: [2, 1, 1],
        palette: vec![
            PaletteBlock { name: "minecraft:stone".to_string(), properties: None },
            PaletteBlock { name: "minecraft:glass".to_string(), properties: None },
        ],
        blocks: vec![
            StructureBlock { state: 1, pos: [0, 0, 0], sign: None },
            StructureBlock { state: 0, pos: [1, 0, 0], sign: None },
        ],
    };
    let mut sc = StructureCache::new(vec![("g.nbt".to_string(), st)]).unwrap();
    let mut o = BlockStorage::new(4, 2, 4);
    sc.build_palette_maps(&mut o).unwrap();
    let s = Splatter::new(&mut o, &sc);
    let cell = Cell { pos: Some(Position { x: 2, y: 1, z: 3 }), ty: "g.nbt".to_string(), parameter: vec![], attribute: vec![], connection: vec![] };
    s.splat_cell(&cell, &mut o).unwrap();
    assert_eq!(o.info_for_index(*o.get_block(2, 1, 3).unwrap()).unwrap().name, "minecraft:glass");
    assert_eq!(o.info_for_index(*o.get_block(3, 1, 3).unwrap()).unwrap().name, "minecraft:stone");
    let unknown = Cell { ty: "h.nbt".to_string(), ..cell };
    assert!(matches!(s.splat_cell(&unknown, &mut o), Err(CellSplatError::UnknownCellType)));
}

#[test]
fn whole_design_is_drawn_inside_a_border() {
    let sc = empty_cache();
    let cells = vec![io_cell("MCPNR_LIGHTS", "NLIGHT", 1, (1, 0, 1))];
    let design = mcpnr_pnr::design::PlacedDesign { creator: String::new(), nets: vec![], cells };
    assert!(mcpnr_pnr::splat::check_splat_fits(&sc, &design.cells[0]));
    let mut o = BlockStorage::new(5, 2, 5);
    mcpnr_pnr::splat::do_splat(&design, &sc, &mut o).unwrap();
    let name = |x, y, z| o.info_for_index(*o.get_block(x, y, z).unwrap()).unwrap().name.clone();
    assert_eq!(name(0, 0, 0), "minecraft:black_wool");
    assert_eq!(name(4, 1, 2), "minecraft:black_wool");
    assert_eq!(name(1, 1, 2), "minecraft:redstone_lamp");
    assert_eq!(name(1, 0, 3), "minecraft:redstone_lamp");
    assert_eq!(name(2, 0, 2), "minecraft:calcite");
}

#[test]
fn rows_reaching_past_u32_do_not_fit() {
    let sc = empty_cache();
    let far = io_cell("MCPNR_SWITCHES", "NSWITCH", 2, (u32::MAX - 2, 0, 0));
    assert!(!mcpnr_pnr::splat::check_splat_fits(&sc, &far));
    let near = io_cell("MCPNR_SWITCHES", "NSWITCH", 2, (u32::MAX - 3, 0, 0));
    assert!(mcpnr_pnr::splat::check_splat_fits(&sc, &near));
}
