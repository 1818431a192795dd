use mcpnr_pnr::block_storage::{BlockStorage, BlockTypeIndex, PropertyValue};
use mcpnr_pnr::design::Cell;
use mcpnr_pnr::netlist::{PinDirection, PinMetadata};
use mcpnr_pnr::structure_cache::{
    structure_names, NbtTag, PaletteBlock, RoutableStructure, SignText, Structure, StructureBlock, StructureCache,
    StructureError,
};
use mcpnr_pnr::text::split_after;

fn sign(pos: [i32; 3], t1: &str, t2: &str, t3: &str) -> StructureBlock {
    StructureBlock {
        state: 0,
        pos,
        sign: Some(SignText { text1: line(t1), text2: line(t2), text3: line(t3) }),
    }
}

/// A sign line as stored: a JSON text component.
fn line(t: &str) -> String {
    format!("{{\"text\":\"{}\"}}", t)
}

fn plain(pos: [i32; 3]) -> StructureBlock {
    StructureBlock { state: 0, pos, sign: None }
}

fn entry(name: &str, props: Option<Vec<(&str, NbtTag)>>) -> PaletteBlock {
    PaletteBlock {
        name: name.to_string(),
        properties: props.map(|ps| ps.into_iter().map(|(k, v)| (k.to_string(), v)).collect()),
    }
}

fn structure(palette: Vec<PaletteBlock>, blocks: Vec<StructureBlock>) -> Structure {
    Structure { data_version: 1, size: [4, 4, 4], palette, blocks }
}

fn pin(name: &str, rs: &RoutableStructure) -> Option<PinMetadata> {
    rs.pins.iter().find(|(n, _)| n == name).map(|(_, p)| *p)
}

#[test]
fn pins_come_from_signs() {
    let s = structure(
        vec![],
        vec![plain([0, 0, 0]), sign([1, 2, 3], "A", "INPUT", "a-7"), sign([0, 1, 0], "Y", "OUTPUT", "")],
    );
    let rs = RoutableStructure::new(s).unwrap();
    assert_eq!(rs.pins.len(), 2);
    assert_eq!(
        pin("A", &rs),
        Some(PinMetadata { offset_x: 1, offset_y: 2, offset_z: 3, sig_derating: 7, direction: PinDirection::Input })
    );
    assert_eq!(
        pin("Y", &rs),
        Some(PinMetadata { offset_x: 0, offset_y: 1, offset_z: 0, sig_derating: 0, direction: PinDirection::Output })
    );
    assert!(rs.palette_palette_map.is_empty());
}

#[test]
fn later_sign_of_a_name_wins() {
    let s = structure(vec![], vec![sign([1, 0, 0], "A", "INPUT", ""), sign([2, 0, 0], "A", "OUTPUT", "x-1")]);
    let rs = RoutableStructure::new(s).unwrap();
    assert_eq!(rs.pins.len(), 1);
    assert_eq!(
        pin("A", &rs),
        Some(PinMetadata { offset_x: 2, offset_y: 0, offset_z: 0, sig_derating: 1, direction: PinDirection::Output })
    );
}

#[test]
fn bad_signs_are_refused() {
    let s = structure(vec![], vec![sign([1, 0, 0], "A", "INOUT", "")]);
    assert_eq!(RoutableStructure::new(s).err(), Some(StructureError::UnknownPinDirection));
    let s = structure(vec![], vec![sign([1, 0, 0], "A", "INPUT", "d-x")]);
    assert_eq!(RoutableStructure::new(s).err(), Some(StructureError::DeratingUnparsable));
    let s = structure(vec![], vec![sign([1, -3, 0], "A", "INPUT", "")]);
    assert_eq!(RoutableStructure::new(s).err(), Some(StructureError::NegativeOffset(-3)));
    // The first bad sign decides.
    let s = structure(vec![], vec![sign([-1, 0, 0], "A", "INPUT", ""), sign([1, 0, 0], "B", "SIDEWAYS", "")]);
    assert_eq!(RoutableStructure::new(s).err(), Some(StructureError::NegativeOffset(-1)));
}

#[test]
fn palette_map_points_into_output_palette() {
    let s = structure(
        vec![
            entry("minecraft:air", None),
            entry("minecraft:lever", Some(vec![("face", NbtTag::String("floor".to_string()))])),
            entry("minecraft:stone", None),
        ],
        vec![],
    );
    let mut rs = RoutableStructure::new(s).unwrap();
    let mut out = BlockStorage::new(2, 2, 2);
    rs.build_palette_map(&mut out).unwrap();
    assert_eq!(rs.palette_palette_map, vec![BlockTypeIndex(0), BlockTypeIndex(1), BlockTypeIndex(2)]);
    let lever = out.info_for_index(BlockTypeIndex(1)).unwrap();
    assert_eq!(lever.name, "minecraft:lever");
    assert!(matches!(lever.property("face"), Some(PropertyValue::String(s)) if s == "floor"));
    assert!(out.info_for_index(BlockTypeIndex(3)).is_none());
}

#[test]
fn unsupported_tags_are_refused() {
    let s = structure(vec![entry("minecraft:odd", Some(vec![("n", NbtTag::Other)]))], vec![]);
    let mut rs = RoutableStructure::new(s).unwrap();
    let mut out = BlockStorage::new(1, 1, 1);
    assert_eq!(rs.build_palette_map(&mut out), Err(StructureError::UnsupportedTag));
}

#[test]
fn cache_shares_block_types_between_structures() {
    let a = structure(vec![entry("minecraft:stone", None), entry("minecraft:glass", None)], vec![]);
    let b = structure(vec![entry("minecraft:glass", None), entry("minecraft:dirt", None)], vec![]);
    let mut cache = StructureCache::new(vec![("a.nbt".to_string(), a), ("b.nbt".to_string(), b)]).unwrap();
    let mut out = BlockStorage::new(1, 1, 1);
    cache.build_palette_maps(&mut out).unwrap();
    let a = cache.get("a.nbt").unwrap();
    let b = cache.get("b.nbt").unwrap();
    assert_eq!(a.palette_palette_map, vec![BlockTypeIndex(1), BlockTypeIndex(2)]);
    assert_eq!(b.palette_palette_map, vec![BlockTypeIndex(2), BlockTypeIndex(3)]);
    assert!(cache.get("c.nbt").is_none());
    // Doing it again adds nothing new.
    cache.build_palette_maps(&mut out).unwrap();
    assert!(out.info_for_index(BlockTypeIndex(4)).is_none());
}

#[test]
fn cache_reports_first_bad_structure() {
    let good = structure(vec![], vec![sign([0, 0, 0], "A", "INPUT", "")]);
    let bad = structure(vec![], vec![sign([0, 0, 0], "A", "UP", "")]);
    let r = StructureCache::new(vec![("good.nbt".to_string(), good), ("bad.nbt".to_string(), bad)]);
    assert_eq!(r.err(), Some(StructureError::UnknownPinDirection));
}

fn cell(ty: &str) -> Cell {
    Cell { pos: None, ty: ty.to_string(), parameter: vec![], attribute: vec![], connection: vec![] }
}

#[test]
fn structure_names_are_distinct_nbt_types() {
    let cells = vec![cell("and.nbt"), cell("MCPNR_LIGHTS"), cell("or.nbt"), cell("and.nbt"), cell("nbt")];
    assert_eq!(structure_names(&cells), vec!["and.nbt".to_string(), "or.nbt".to_string()]);
}

#[test]
fn split_after_first_dash() {
    assert_eq!(split_after("a-b-c", '-'), Some("b-c"));
    assert_eq!(split_after("abc", '-'), None);
    assert_eq!(split_after("-", '-'), Some(""));
}

#[test]
fn sign_lines_are_json_text_components() {
    // The pin name is the text of the first line's component, not the raw line.
    let s = structure(vec![], vec![sign([1, 0, 0], "CLK", "INPUT", "x-3")]);
    let rs = RoutableStructure::new(s).unwrap();
    assert_eq!(rs.pins.len(), 1);
    assert_eq!(rs.pins[0].0, "CLK");
    assert_eq!(rs.pins[0].1.sig_derating, 3);
    // Other members of the component are ignored.
    let b = StructureBlock {
        state: 0,
        pos: [0, 0, 0],
        sign: Some(SignText {
            text1: "{\"color\":\"red\",\"text\":\"Q\"}".to_string(),
            text2: line("OUTPUT"),
            text3: line(""),
        }),
    };
    let rs = RoutableStructure::new(structure(vec![], vec![b])).unwrap();
    assert_eq!(rs.pins[0].0, "Q");
}

#[test]
fn unreadable_sign_lines_are_refused() {
    let b = |t1: &str, t2: &str, t3: &str| StructureBlock {
        state: 0,
        pos: [0, 0, 0],
        sign: Some(SignText { text1: t1.to_string(), text2: t2.to_string(), text3: t3.to_string() }),
    };
    let ok = line("A");
    let r = RoutableStructure::new(structure(vec![], vec![b("A", &ok, &ok)]));
    assert_eq!(r.err(), Some(StructureError::SignTextUnreadable(1)));
    let r = RoutableStructure::new(structure(vec![], vec![b(&ok, "[1]", &ok)]));
    assert_eq!(r.err(), Some(StructureError::SignTextUnreadable(2)));
    let r = RoutableStructure::new(structure(vec![], vec![b(&ok, &line("INPUT"), "{\"text\":5}")]));
    assert_eq!(r.err(), Some(StructureError::SignTextUnreadable(3)));
}
