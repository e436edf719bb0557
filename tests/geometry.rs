use crypthack::geometry::{IVec3, IVec3Tile, Rect3, TileType, WithinBoxIterator};

#[test]
fn rotate_left_and_right() {
    assert_eq!(TileType::North.rotate90(true), TileType::West);
    assert_eq!(TileType::West.rotate90(true), TileType::South);
    assert_eq!(TileType::East.rotate90(false), TileType::South);
    assert_eq!(TileType::Center.rotate90(true), TileType::Center);
}

#[test]
fn rotate_full_cycles() {
    let mut t = TileType::North;
    for _ in 0..4 {
        t = t.rotate90(true);
    }
    assert_eq!(t, TileType::North);
    assert_eq!(TileType::South.rotate90(true), TileType::East);
    assert_eq!(TileType::East.rotate90(true), TileType::North);
    assert_eq!(TileType::North.rotate90(false), TileType::East);
    assert_eq!(TileType::South.rotate90(false), TileType::West);
    assert_eq!(TileType::West.rotate90(false), TileType::North);
    assert_eq!(TileType::Ceiling.rotate90(false), TileType::Center);
    assert_eq!(TileType::Floor.rotate90(true), TileType::Center);
}

#[test]
fn opposite_and_steps() {
    assert_eq!(TileType::North.opposite(), TileType::South);
    assert_eq!(TileType::East.opposite(), TileType::West);
    assert_eq!(TileType::North.step(), IVec3::new(0, 0, 1));
    assert_eq!(TileType::South.step(), IVec3::new(0, 0, -1));
    assert_eq!(TileType::East.step(), IVec3::new(1, 0, 0));
    assert_eq!(TileType::West.step(), IVec3::new(-1, 0, 0));
    assert_eq!(TileType::Ceiling.step(), IVec3::new(0, 0, 0));
    assert_eq!(TileType::West.slot(), 6);
    assert_eq!(TileType::default(), TileType::Center);
}

#[test]
fn rect3_construction() {
    let r = Rect3::new(IVec3::new(0, 0, 0), 6, 1, 6);
    assert_eq!(r.min(), IVec3::new(0, 0, 0));
    assert_eq!(r.max(), IVec3::new(5, 0, 5));
}

#[test]
fn rect3_normalizes_corners() {
    let r = Rect3 { pos1: IVec3::new(4, 1, -2), pos2: IVec3::new(-1, 3, 2) };
    assert_eq!(r.min(), IVec3::new(-1, 1, -2));
    assert_eq!(r.max(), IVec3::new(4, 3, 2));
}

#[test]
fn rect3_intersect_closed_intervals() {
    let a = Rect3::new(IVec3::new(0, 0, 0), 3, 1, 3);
    let touching = Rect3::new(IVec3::new(2, 0, 0), 3, 1, 3);
    let apart = Rect3::new(IVec3::new(3, 0, 0), 3, 1, 3);
    let above = Rect3::new(IVec3::new(0, 1, 0), 3, 1, 3);
    assert!(a.intersect(&touching));
    assert!(touching.intersect(&a));
    assert!(!a.intersect(&apart));
    assert!(!a.intersect(&above));
    assert!(a.intersect(&a));
    let far_max = Rect3::new(IVec3::new(10, 0, 0), 2, 1, 2);
    assert!(!a.intersect(&far_max));
    assert!(!far_max.intersect(&a));
}

#[test]
fn box_iterator_raster_order() {
    let mut it = WithinBoxIterator::new(IVec3::new(1, 0, 5), IVec3::new(2, 1, 6));
    let mut seen = Vec::new();
    while let Some(p) = it.next() {
        seen.push((p.x, p.y, p.z));
    }
    assert_eq!(
        seen,
        vec![(1, 0, 5), (2, 0, 5), (1, 1, 5), (2, 1, 5), (1, 0, 6), (2, 0, 6), (1, 1, 6), (2, 1, 6)]
    );
    assert_eq!(it.next(), None);
}

#[test]
fn box_iterator_single_voxel() {
    let mut it = WithinBoxIterator::new(IVec3::new(-3, 2, 0), IVec3::new(-3, 2, 0));
    assert_eq!(it.next(), Some(IVec3::new(-3, 2, 0)));
    assert_eq!(it.next(), None);
}

#[test]
fn empty_cell_record() {
    assert_eq!(TileType::empty(), [None; 7]);
}

#[test]
fn ivec3_tile_and_add() {
    let t = IVec3Tile::new(IVec3::new(1, 2, 3), TileType::East);
    assert_eq!(t.position, IVec3::new(1, 2, 3));
    assert_eq!(t.orientation, TileType::East);
    assert_eq!(IVec3::new(1, 2, 3).add(IVec3::new(-1, 0, 4)), IVec3::new(0, 2, 7));
}
