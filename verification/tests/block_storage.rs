use mcpnr_pnr::block_storage::{
    all_directions, planar_directions, Block, BlockStorage, BlockStorageError, BlockTypeIndex, Direction, Position,
    PropertyValue,
};

fn stone() -> Block {
    Block::new("minecraft:stone".to_string())
}

fn lever(face: &str) -> Block {
    Block {
        name: "minecraft:lever".to_string(),
        properties: Some(vec![
            ("face".to_string(), PropertyValue::String(face.to_string())),
            ("powered".to_string(), PropertyValue::Byte(0)),
        ]),
    }
}

#[test]
fn directions_mirror_in_pairs() {
    for d in all_directions() {
        assert_eq!(d.mirror().mirror(), d);
        assert_ne!(d.mirror(), d);
    }
    assert_eq!(Direction::North.mirror(), Direction::South);
    assert_eq!(Direction::East.mirror(), Direction::West);
    assert_eq!(Direction::Up.mirror(), Direction::Down);
    assert_eq!(planar_directions().len(), 4);
}

#[test]
fn offsets_step_one_block() {
    let p = Position::new(3, 4, 5);
    assert_eq!(p.offset(Direction::North), Position::new(3, 4, 4));
    assert_eq!(p.offset(Direction::South), Position::new(3, 4, 6));
    assert_eq!(p.offset(Direction::East), Position::new(4, 4, 5));
    assert_eq!(p.offset(Direction::West), Position::new(2, 4, 5));
    assert_eq!(p.offset(Direction::Up), Position::new(3, 5, 5));
    assert_eq!(p.offset(Direction::Down), Position::new(3, 3, 5));
    for d in all_directions() {
        assert_eq!(p.offset(d).offset(d.mirror()), p);
    }
}

#[test]
fn bounding_box_is_half_open() {
    let min = Position::new(0, 0, 0);
    let max = Position::new(2, 2, 2);
    assert!(Position::new(1, 0, 1).in_bounding_box(&min, &max));
    assert!(!Position::new(2, 0, 1).in_bounding_box(&min, &max));
    assert!(!Position::new(0, -1, 0).in_bounding_box(&min, &max));
}

#[test]
fn sticky_and_pushable_blocks() {
    assert!(Block::new("minecraft:slime_block".to_string()).is_sticky());
    assert!(Block::new("minecraft:honey_block".to_string()).is_sticky());
    assert!(!stone().is_sticky());
    assert!(stone().is_pushable());
    assert!(!Block::new("minecraft:air".to_string()).is_pushable());
    assert!(!Block::new("minecraft:obsidian".to_string()).is_pushable());
    assert!(!Block::new("minecraft:bedrock".to_string()).is_pushable());
}

#[test]
fn block_properties_are_found_by_key() {
    let b = lever("wall");
    assert!(matches!(b.property("face"), Some(PropertyValue::String(s)) if s == "wall"));
    assert!(matches!(b.property("powered"), Some(PropertyValue::Byte(0))));
    assert!(b.property("facing").is_none());
    assert!(b.same_as(&lever("wall")));
    assert!(!b.same_as(&lever("floor")));
}

#[test]
fn new_storage_is_air() {
    let s = BlockStorage::new(2, 3, 4);
    assert_eq!(s.extents(), &[2, 3, 4]);
    assert_eq!(s.info_for_index(BlockTypeIndex(0)).unwrap().name, "minecraft:air");
    assert!(s.info_for_index(BlockTypeIndex(1)).is_none());
    assert_eq!(s.iter_block_indicies_count(), 24);
}

trait CountIndices {
    fn iter_block_indicies_count(&self) -> usize;
}

impl CountIndices for BlockStorage {
    fn iter_block_indicies_count(&self) -> usize {
        let mut it = self.iter_block_indicies();
        let mut n = 0;
        while let Some(i) = it.next() {
            assert_eq!(i, BlockTypeIndex(0));
            n += 1;
        }
        n
    }
}

#[test]
fn block_types_are_added_once() {
    let mut s = BlockStorage::new(1, 1, 1);
    let a = s.add_new_block_type(stone());
    let b = s.add_new_block_type(lever("floor"));
    let c = s.add_new_block_type(stone());
    let d = s.add_new_block_type(Block::new("minecraft:air".to_string()));
    assert_eq!(a, BlockTypeIndex(1));
    assert_eq!(b, BlockTypeIndex(2));
    assert_eq!(c, a);
    assert_eq!(d, BlockTypeIndex(0));
}

#[test]
fn blocks_read_back_what_was_written() {
    let mut s = BlockStorage::new(3, 2, 2);
    let st = s.add_new_block_type(stone());
    *s.get_block_mut(2, 1, 0).unwrap() = st;
    assert_eq!(*s.get_block(2, 1, 0).unwrap(), st);
    assert_eq!(*s.get_block(1, 1, 0).unwrap(), BlockTypeIndex(0));
    assert_eq!(
        s.get_block(3, 0, 0),
        Err(BlockStorageError::OutOfBounds { x: 3, y: 0, z: 0, size_x: 3, size_y: 2, size_z: 2 })
    );
    assert!(s.get_block_mut(0, 2, 0).is_err());
}

#[test]
fn coordinates_run_x_then_z_then_y() {
    let mut s = BlockStorage::new(2, 2, 2);
    let st = s.add_new_block_type(stone());
    *s.get_block_mut(1, 1, 0).unwrap() = st;
    let mut it = s.iter_block_coords();
    let mut seen = Vec::new();
    while let Some(e) = it.next() {
        seen.push(e);
    }
    let coords: Vec<(u32, u32, u32)> = seen.iter().map(|e| e.0).collect();
    assert_eq!(
        coords,
        vec![(0, 0, 0), (1, 0, 0), (0, 0, 1), (1, 0, 1), (0, 1, 0), (1, 1, 0), (0, 1, 1), (1, 1, 1)]
    );
    assert_eq!(seen[5].1, st);
    assert_eq!(seen[4].1, BlockTypeIndex(0));
}

#[test]
fn mutable_coordinates_write_through() {
    let mut s = BlockStorage::new(2, 1, 2);
    let st = s.add_new_block_type(stone());
    let mut it = s.iter_block_coords_mut();
    let mut n = 0;
    while let Some(((x, _, z), b)) = it.next(&mut s) {
        if x == z {
            *b = st;
        }
        n += 1;
    }
    assert_eq!(n, 4);
    assert_eq!(*s.get_block(0, 0, 0).unwrap(), st);
    assert_eq!(*s.get_block(1, 0, 1).unwrap(), st);
    assert_eq!(*s.get_block(1, 0, 0).unwrap(), BlockTypeIndex(0));
}
