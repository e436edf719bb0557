use crypthack::geometry::{IVec3, Rect3, TileType};
use crypthack::grid::{spawn_tile, Commands, GridMap, Tile};
use crypthack::planning::{
    candidate_rect, connection_weight, contains_point, open_walls, random_legs, random_surface_wall_point,
    surface_wall_points, WEIGHT_SCALE,
};
use crypthack::records::GenConfig;

#[test]
fn wall_points_ring_at_floor_level() {
    let rect = Rect3::new(IVec3::new(2, 1, 3), 3, 2, 4);
    let points = surface_wall_points(rect, &vec![]);
    // Perimeter of a 3 by 4 floor: 10 voxels.
    let mut distinct: Vec<IVec3> = Vec::new();
    for p in &points {
        assert_eq!(p.y, 1);
        assert!(p.x == 2 || p.x == 4 || p.z == 3 || p.z == 6);
        if !distinct.contains(p) {
            distinct.push(*p);
        }
    }
    assert_eq!(distinct.len(), 10);
    assert_eq!(points.len(), 10);
    assert!(!points.contains(&IVec3::new(3, 1, 4)));
}

#[test]
fn wall_points_skip_excluded() {
    let rect = Rect3::new(IVec3::new(0, 0, 0), 2, 1, 2);
    let exclude = vec![IVec3::new(0, 0, 0), IVec3::new(1, 0, 1)];
    let points = surface_wall_points(rect, &exclude);
    assert!(points.iter().all(|p| *p == IVec3::new(1, 0, 0) || *p == IVec3::new(0, 0, 1)));
    assert!(points.contains(&IVec3::new(1, 0, 0)));
    assert!(points.contains(&IVec3::new(0, 0, 1)));
    let all = vec![IVec3::new(0, 0, 0), IVec3::new(1, 0, 1), IVec3::new(1, 0, 0), IVec3::new(0, 0, 1)];
    assert!(surface_wall_points(rect, &all).is_empty());
    assert!(contains_point(&all, IVec3::new(1, 0, 0)));
}

#[test]
fn open_walls_lists_present_walls() {
    let mut cell = [None; 7];
    cell[TileType::North.slot()] = Some(4);
    cell[TileType::West.slot()] = Some(5);
    cell[TileType::Floor.slot()] = Some(6);
    let walls = open_walls(&cell);
    assert_eq!(walls, vec![TileType::North, TileType::West]);
    assert!(open_walls(&[None; 7]).is_empty());
}

#[test]
fn surface_point_needs_a_wall() {
    let mut map = GridMap::new(10, 3, 10);
    let mut commands = Commands::new();
    let rect = Rect3::new(IVec3::new(2, 0, 2), 3, 1, 3);
    // No walls anywhere: the picked voxel never has one.
    assert_eq!(random_surface_wall_point(&vec![], rect, &map), None);
    spawn_tile(&mut commands, &mut map, Tile { mesh: 0, material: 0 }, TileType::South, IVec3::new(3, 0, 2));
    let exclude: Vec<IVec3> = surface_wall_points(rect, &vec![])
        .into_iter()
        .filter(|p| *p != IVec3::new(3, 0, 2))
        .collect();
    let picked = random_surface_wall_point(&exclude, rect, &map).unwrap();
    assert_eq!(picked.position, IVec3::new(3, 0, 2));
    assert_eq!(picked.orientation, TileType::South);
}

#[test]
fn candidate_rect_extends_away_from_corridor() {
    let anchor = IVec3::new(10, 1, 10);
    let east = candidate_rect(anchor, TileType::East, 6, 2, 8);
    assert_eq!((east.min(), east.max()), (IVec3::new(10, 1, 6), IVec3::new(15, 2, 13)));
    let west = candidate_rect(anchor, TileType::West, 6, 2, 8);
    assert_eq!((west.min(), west.max()), (IVec3::new(5, 1, 6), IVec3::new(10, 2, 13)));
    let north = candidate_rect(anchor, TileType::North, 7, 1, 6);
    assert_eq!((north.min(), north.max()), (IVec3::new(7, 1, 10), IVec3::new(13, 1, 15)));
    let south = candidate_rect(anchor, TileType::South, 7, 1, 6);
    assert_eq!((south.min(), south.max()), (IVec3::new(7, 1, 5), IVec3::new(13, 1, 10)));
}

#[test]
fn connection_weights() {
    assert_eq!(WEIGHT_SCALE, 232792560);
    assert_eq!(connection_weight(0, 0), 232792560);
    assert_eq!(connection_weight(1, 1), 77597520);
    assert_eq!(connection_weight(0, 2), 77597520);
    assert_eq!(connection_weight(19, 0), 11639628);
    assert!(connection_weight(0, 0) > connection_weight(2, 0));
    assert_eq!(connection_weight(232792560, 0), 0);
    assert_eq!(connection_weight(usize::MAX, usize::MAX), 0);
}

#[test]
fn random_legs_within_ranges() {
    let config = GenConfig::default();
    for _ in 0..200 {
        let legs = random_legs(&config);
        assert!(legs.len() >= 2 && legs.len() <= 5);
        for l in &legs {
            assert!(l.distance >= 3 && l.distance <= 10);
        }
    }
}
