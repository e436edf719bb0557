use crypthack::corridor::{contains_position, walk_corridor, Leg, WalkEnd};
use crypthack::geometry::{IVec3, IVec3Tile, TileType};
use crypthack::grid::{spawn_tile, Commands, GridMap, Tile};

fn leg(distance: i32, turn_left: bool) -> Leg {
    Leg { distance, turn_left }
}

fn positions(path: &[IVec3Tile]) -> Vec<(i32, i32, i32)> {
    path.iter().map(|t| (t.position.x, t.position.y, t.position.z)).collect()
}

#[test]
fn walk_completes_with_turn() {
    let map = GridMap::new(20, 3, 20);
    let origin = IVec3Tile::new(IVec3::new(5, 0, 5), TileType::North);
    let walk = walk_corridor(&map, origin, &vec![leg(3, false), leg(2, true)]);
    assert_eq!(walk.end, WalkEnd::Completed);
    assert_eq!(
        positions(&walk.path),
        vec![(5, 0, 5), (5, 0, 6), (5, 0, 7), (5, 0, 8), (6, 0, 8), (7, 0, 8)]
    );
    let orientations: Vec<TileType> = walk.path.iter().map(|t| t.orientation).collect();
    assert_eq!(
        orientations,
        vec![TileType::North, TileType::North, TileType::North, TileType::North, TileType::East, TileType::East]
    );
}

#[test]
fn walk_stops_before_out_of_bounds_point() {
    let map = GridMap::new(10, 3, 10);
    let origin = IVec3Tile::new(IVec3::new(1, 0, 1), TileType::West);
    let walk = walk_corridor(&map, origin, &vec![leg(3, true), leg(4, true)]);
    assert_eq!(walk.end, WalkEnd::OutOfBounds);
    assert_eq!(positions(&walk.path), vec![(1, 0, 1), (0, 0, 1)]);
    for t in &walk.path {
        assert!(!map.position_oob(t.position));
    }
}

#[test]
fn walk_keeps_revisited_point_as_last() {
    let map = GridMap::new(20, 3, 20);
    let origin = IVec3Tile::new(IVec3::new(5, 0, 5), TileType::North);
    let legs = vec![leg(2, true), leg(2, true), leg(2, true), leg(3, true), leg(5, false)];
    let walk = walk_corridor(&map, origin, &legs);
    assert_eq!(walk.end, WalkEnd::Revisited);
    assert_eq!(
        positions(&walk.path),
        vec![(5, 0, 5), (5, 0, 6), (5, 0, 7), (4, 0, 7), (3, 0, 7), (3, 0, 6), (3, 0, 5), (4, 0, 5), (5, 0, 5)]
    );
    let last = walk.path[walk.path.len() - 1].position;
    let repeats = walk.path.iter().filter(|t| t.position == last).count();
    assert_eq!(repeats, 2);
}

#[test]
fn walk_stops_after_collision() {
    let mut map = GridMap::new(20, 3, 20);
    let mut commands = Commands::new();
    spawn_tile(&mut commands, &mut map, Tile { mesh: 0, material: 0 }, TileType::Floor, IVec3::new(5, 0, 8));
    let origin = IVec3Tile::new(IVec3::new(5, 0, 5), TileType::North);
    let walk = walk_corridor(&map, origin, &vec![leg(5, true), leg(3, true)]);
    assert_eq!(walk.end, WalkEnd::Collided);
    assert_eq!(positions(&walk.path), vec![(5, 0, 5), (5, 0, 6), (5, 0, 7), (5, 0, 8)]);
}

#[test]
fn walk_with_no_legs_is_origin_only() {
    let map = GridMap::new(5, 1, 5);
    let origin = IVec3Tile::new(IVec3::new(2, 0, 2), TileType::South);
    let walk = walk_corridor(&map, origin, &vec![]);
    assert_eq!(walk.end, WalkEnd::Completed);
    assert_eq!(positions(&walk.path), vec![(2, 0, 2)]);
}

#[test]
fn position_lookup() {
    let path = vec![
        IVec3Tile::new(IVec3::new(1, 0, 1), TileType::North),
        IVec3Tile::new(IVec3::new(1, 0, 2), TileType::North),
    ];
    assert!(contains_position(&path, IVec3::new(1, 0, 2)));
    assert!(!contains_position(&path, IVec3::new(2, 0, 2)));
    assert!(!contains_position(&vec![], IVec3::new(0, 0, 0)));
}
