use crypthack::geometry::{IVec3, TileType};
use crypthack::grid::{clear_all, clear_position, clear_tile, spawn_tile, Commands, GridMap, SurfaceCommand, Tile};

fn tile() -> Tile {
    Tile { mesh: 1, material: 2 }
}

#[test]
fn default_extent_and_bounds() {
    let map = GridMap::default();
    assert_eq!((map.width(), map.height(), map.length()), (80, 10, 40));
    assert_eq!(map.min(), IVec3::new(0, 0, 0));
    assert_eq!(map.max(), IVec3::new(79, 9, 39));
    assert!(!map.position_oob(IVec3::new(0, 0, 0)));
    assert!(!map.position_oob(IVec3::new(79, 9, 39)));
    assert!(map.position_oob(IVec3::new(80, 0, 0)));
    assert!(map.position_oob(IVec3::new(0, -1, 0)));
    assert!(map.position_oob(IVec3::new(0, 0, 40)));
    assert!(!map.position_collides(IVec3::new(3, 3, 3)));
}

#[test]
fn spawn_then_clear_tile() {
    let mut map = GridMap::new(4, 3, 5);
    let mut commands = Commands::new();
    let p = IVec3::new(1, 2, 3);
    spawn_tile(&mut commands, &mut map, tile(), TileType::North, p);
    assert!(map.position_collides(p));
    assert_eq!(map.at(p)[TileType::North.slot()], Some(0));
    assert_eq!(commands.next_handle, 1);
    assert_eq!(
        commands.queue,
        vec![SurfaceCommand::Spawn { handle: 0, tile: tile(), orientation: TileType::North, position: p }]
    );
    clear_tile(&mut commands, &mut map, TileType::North, p);
    assert!(!map.position_collides(p));
    assert_eq!(commands.queue[1], SurfaceCommand::Despawn { handle: 0 });
    clear_tile(&mut commands, &mut map, TileType::North, p);
    assert_eq!(commands.queue.len(), 2);
}

#[test]
fn clear_position_despawns_every_slot() {
    let mut map = GridMap::new(4, 3, 5);
    let mut commands = Commands::new();
    let p = IVec3::new(0, 0, 0);
    spawn_tile(&mut commands, &mut map, tile(), TileType::Floor, p);
    spawn_tile(&mut commands, &mut map, tile(), TileType::West, p);
    spawn_tile(&mut commands, &mut map, tile(), TileType::Ceiling, IVec3::new(1, 0, 0));
    clear_position(&mut commands, &mut map, p);
    assert!(!map.position_collides(p));
    assert!(map.position_collides(IVec3::new(1, 0, 0)));
    assert_eq!(commands.queue[3], SurfaceCommand::Despawn { handle: 0 });
    assert_eq!(commands.queue[4], SurfaceCommand::Despawn { handle: 1 });
    assert_eq!(commands.queue.len(), 5);
}

#[test]
fn clear_all_empties_map() {
    let mut map = GridMap::new(3, 2, 3);
    let mut commands = Commands::new();
    spawn_tile(&mut commands, &mut map, tile(), TileType::Floor, IVec3::new(2, 1, 2));
    spawn_tile(&mut commands, &mut map, tile(), TileType::East, IVec3::new(0, 0, 1));
    clear_all(&mut commands, &mut map);
    for x in 0..3 {
        for y in 0..2 {
            for z in 0..3 {
                assert!(!map.position_collides(IVec3::new(x, y, z)));
            }
        }
    }
    assert_eq!(commands.queue.len(), 4);
}
