use mcpnr_pnr::block_storage::{Block, BlockStorage, BlockTypeIndex, Direction, Position, PropertyValue};
use mcpnr_pnr::detail_routing::{all_layers, GridCellPosition, Layer, LayerError};
use mcpnr_pnr::router::{block_facing, KnownPins};
use mcpnr_pnr::wire_segment::{splat_wire_segment, SplatError, WirePosition, WireTierLayer};

fn at(o: &BlockStorage, x: u32, y: u32, z: u32) -> BlockTypeIndex {
    *o.get_block(x, y, z).unwrap()
}

const AIR: BlockTypeIndex = BlockTypeIndex(0);
const CALCITE: BlockTypeIndex = BlockTypeIndex(1);
const REDSTONE: BlockTypeIndex = BlockTypeIndex(2);

#[test]
fn straight_wire_east() {
    let mut o = BlockStorage::new(4, 16, 4);
    let li = WireTierLayer::new(0, Layer::LI);
    let r = splat_wire_segment(&mut o, WirePosition::new(0, 0), (li, Direction::East), (li, Direction::East));
    assert_eq!(r, Ok((WirePosition::new(1, 0), li)));
    assert_eq!(o.info_for_index(CALCITE).unwrap().name, "minecraft:calcite");
    assert_eq!(o.info_for_index(REDSTONE).unwrap().name, "minecraft:redstone_wire");
    assert_eq!(at(&o, 0, 0, 0), CALCITE);
    assert_eq!(at(&o, 1, 0, 0), CALCITE);
    assert_eq!(at(&o, 0, 1, 0), REDSTONE);
    assert_eq!(at(&o, 1, 1, 0), REDSTONE);
    assert_eq!(at(&o, 0, 0, 1), AIR);
}

#[test]
fn straight_wire_north_on_upper_layer() {
    let mut o = BlockStorage::new(4, 16, 4);
    let m1 = WireTierLayer::new(0, Layer::M1);
    let r = splat_wire_segment(&mut o, WirePosition::new(1, 1), (m1, Direction::North), (m1, Direction::North));
    assert_eq!(r, Ok((WirePosition::new(1, 0), m1)));
    assert_eq!(at(&o, 2, 7, 2), CALCITE);
    assert_eq!(at(&o, 2, 7, 3), CALCITE);
    assert_eq!(at(&o, 2, 8, 2), REDSTONE);
    assert_eq!(at(&o, 2, 8, 3), REDSTONE);
    assert_eq!(at(&o, 3, 7, 2), AIR);
}

#[test]
fn segments_between_distant_layers_fail() {
    let mut o = BlockStorage::new(4, 32, 4);
    let li = WireTierLayer::new(0, Layer::LI);
    let m1 = WireTierLayer::new(0, Layer::M1);
    let r = splat_wire_segment(&mut o, WirePosition::new(0, 0), (li, Direction::East), (m1, Direction::East));
    assert_eq!(r, Err(SplatError::LayersNotAdjacent));
    let top = WireTierLayer::new(0, Layer::M3);
    let next = WireTierLayer::new(1, Layer::LI);
    let r = splat_wire_segment(&mut o, WirePosition::new(0, 0), (top, Direction::East), (next, Direction::East));
    assert_eq!(r, Err(SplatError::TierChangeUnsupported));
    // Nothing was written, not even the palette.
    assert!(o.info_for_index(CALCITE).is_none());
}

#[test]
fn reversing_wire_is_refused() {
    let mut o = BlockStorage::new(4, 16, 4);
    let li = WireTierLayer::new(0, Layer::LI);
    let r = splat_wire_segment(&mut o, WirePosition::new(0, 0), (li, Direction::North), (li, Direction::South));
    assert_eq!(r, Err(SplatError::UnsupportedDirections(Direction::North, Direction::South)));
}

#[test]
fn wire_positions_move_in_the_plane() {
    let p = WirePosition::new(3, 3);
    assert_eq!(p.offset(Direction::North), Ok(WirePosition::new(3, 2)));
    assert_eq!(p.offset(Direction::West), Ok(WirePosition::new(2, 3)));
    assert_eq!(p.offset(Direction::Up), Err(SplatError::CannotOffset(Direction::Up)));
}

#[test]
fn layer_adjacency() {
    let l = |t, l| WireTierLayer::new(t, l);
    assert!(l(0, Layer::M0).adjacent(l(0, Layer::M0)));
    assert!(l(0, Layer::M0).adjacent(l(0, Layer::M1)));
    assert!(l(0, Layer::M1).adjacent(l(0, Layer::M0)));
    assert!(!l(0, Layer::LI).adjacent(l(0, Layer::M1)));
    assert!(l(2, Layer::M3).adjacent(l(3, Layer::LI)));
    assert!(l(3, Layer::LI).adjacent(l(2, Layer::M3)));
    assert!(!l(2, Layer::LI).adjacent(l(3, Layer::LI)));
    assert!(!l(0, Layer::M3).adjacent(l(2, Layer::LI)));
}

#[test]
fn layers_and_indices() {
    assert_eq!(Layer::from_y_idx(0), Ok(Layer::LI));
    assert_eq!(Layer::from_y_idx(3), Ok(Layer::LI));
    assert_eq!(Layer::from_y_idx(4), Ok(Layer::M0));
    assert_eq!(Layer::from_y_idx(9), Ok(Layer::M1));
    assert_eq!(Layer::from_y_idx(12), Ok(Layer::M2));
    assert_eq!(Layer::from_y_idx(15), Ok(Layer::M3));
    assert_eq!(Layer::from_y_idx(16), Err(LayerError::YOutOfRange(16)));
    assert_eq!(Layer::from_compact_idx(5), Err(LayerError::UnsupportedCompactIdx(5)));
    for l in all_layers() {
        assert_eq!(Layer::from_compact_idx(l.to_compact_idx()), Ok(l));
        assert_eq!(Layer::from_y_idx(l.to_y_idx() as i32), Ok(l));
    }
    assert_eq!(Layer::M3.next(), Layer::LI);
    assert_eq!(Layer::LI.next(), Layer::M0);
}

#[test]
fn block_positions_map_to_grid() {
    let g = GridCellPosition::from_block_position(Position::new(5, 16 + 8, 3)).unwrap();
    assert_eq!(g, GridCellPosition::new(2, 5 + 2, 1));
    assert_eq!(
        GridCellPosition::from_block_position(Position::new(0, -1, 0)),
        Err(LayerError::YOutOfRange(-1))
    );
}

fn facing(f: &str) -> Block {
    Block {
        name: "minecraft:repeater".to_string(),
        properties: Some(vec![("facing".to_string(), PropertyValue::String(f.to_string()))]),
    }
}

#[test]
fn facing_property_gives_direction() {
    assert_eq!(block_facing(&facing("north")), Some(Direction::North));
    assert_eq!(block_facing(&facing("up")), Some(Direction::Up));
    assert_eq!(block_facing(&facing("sideways")), None);
    assert_eq!(block_facing(&Block::new("minecraft:stone".to_string())), None);
}

#[test]
fn known_pins_replace_on_insert() {
    let mut k = KnownPins::new();
    let p = GridCellPosition::new(1, 2, 3);
    assert_eq!(k.get(p), None);
    k.insert(p, Direction::East);
    k.insert(GridCellPosition::new(0, 0, 0), Direction::Up);
    k.insert(p, Direction::West);
    assert_eq!(k.get(p), Some(Direction::West));
    assert_eq!(k.get(GridCellPosition::new(0, 0, 0)), Some(Direction::Up));
}
