use crypthack::geometry::{IVec3, IVec3Tile, Rect3, TileType};
use crypthack::grid::{spawn_tile, Commands, GridMap, Tile};
use crypthack::records::{PathExit, Rect3Room};
use crypthack::spawner::{spawn_exit, spawn_room};

fn tile() -> Tile {
    Tile { mesh: 3, material: 4 }
}

fn slots(map: &GridMap, p: IVec3) -> Vec<TileType> {
    let all = [
        TileType::Center,
        TileType::Ceiling,
        TileType::Floor,
        TileType::North,
        TileType::East,
        TileType::South,
        TileType::West,
    ];
    let cell = map.at(p);
    all.iter().copied().filter(|t| cell[t.slot()].is_some()).collect()
}

#[test]
fn room_faces_get_surfaces() {
    let mut map = GridMap::new(10, 4, 10);
    let mut commands = Commands::new();
    let room = Rect3Room {
        spawned_actors: vec![],
        rect: Rect3::new(IVec3::new(1, 0, 1), 3, 3, 3),
        ceiling: tile(),
        walls: tile(),
        floor: tile(),
    };
    spawn_room(&mut commands, &mut map, &room);
    assert_eq!(slots(&map, IVec3::new(1, 0, 1)), vec![TileType::Floor, TileType::South, TileType::West]);
    assert_eq!(slots(&map, IVec3::new(3, 2, 3)), vec![TileType::Ceiling, TileType::North, TileType::East]);
    assert_eq!(slots(&map, IVec3::new(2, 1, 2)), vec![]);
    assert_eq!(slots(&map, IVec3::new(2, 1, 3)), vec![TileType::North]);
    assert_eq!(slots(&map, IVec3::new(0, 0, 0)), vec![]);
    assert_eq!(slots(&map, IVec3::new(4, 0, 1)), vec![]);
}

#[test]
fn corridor_surfaces() {
    let mut map = GridMap::new(12, 2, 12);
    let mut commands = Commands::new();
    spawn_tile(&mut commands, &mut map, tile(), TileType::North, IVec3::new(2, 0, 2));
    spawn_tile(&mut commands, &mut map, tile(), TileType::Floor, IVec3::new(2, 0, 2));
    let path = vec![
        IVec3Tile::new(IVec3::new(2, 0, 2), TileType::North),
        IVec3Tile::new(IVec3::new(2, 0, 3), TileType::North),
        IVec3Tile::new(IVec3::new(2, 0, 4), TileType::North),
        IVec3Tile::new(IVec3::new(3, 0, 4), TileType::East),
        IVec3Tile::new(IVec3::new(4, 0, 4), TileType::East),
    ];
    let exit = PathExit { path, ceiling: tile(), walls: tile(), floor: tile() };
    spawn_exit(&mut commands, &mut map, &exit);
    // The start opens the wall it faces and keeps the rest.
    assert_eq!(slots(&map, IVec3::new(2, 0, 2)), vec![TileType::Floor]);
    // Straight stretch: both side walls.
    assert_eq!(
        slots(&map, IVec3::new(2, 0, 3)),
        vec![TileType::Ceiling, TileType::Floor, TileType::East, TileType::West]
    );
    // Turning right: the wall ahead and the left side.
    assert_eq!(
        slots(&map, IVec3::new(2, 0, 4)),
        vec![TileType::Ceiling, TileType::Floor, TileType::North, TileType::West]
    );
    assert_eq!(
        slots(&map, IVec3::new(3, 0, 4)),
        vec![TileType::Ceiling, TileType::Floor, TileType::North, TileType::South]
    );
    // The end has nothing behind it.
    assert_eq!(slots(&map, IVec3::new(4, 0, 4)), vec![]);
}
