use crypthack::generator::BranchGenerator;
use crypthack::geometry::{IVec3, IVec3Tile, Rect3, TileType};
use crypthack::grid::{GridMap, Tile};
use crypthack::records::{Entrances, Exits, GameState, GenConfig, Rect3Room, RoomEntry};

fn tile() -> Tile {
    Tile { mesh: 7, material: 9 }
}

fn map_is_empty(map: &GridMap) -> bool {
    for x in 0..map.width() {
        for y in 0..map.height() {
            for z in 0..map.length() {
                if map.position_collides(IVec3::new(x, y, z)) {
                    return false;
                }
            }
        }
    }
    true
}

fn run_until_grow_ends(g: &mut BranchGenerator) -> (usize, usize) {
    g.map_branching_start();
    g.spawn_geometry();
    let mut invocations = 0;
    let mut most_rooms = g.rooms.len();
    while g.state == GameState::MapGen {
        g.map_branching_generation();
        g.spawn_geometry();
        invocations += 1;
        most_rooms = most_rooms.max(g.rooms.len());
        assert!(invocations <= 1000);
    }
    (invocations, most_rooms)
}

fn check_layout(g: &BranchGenerator) {
    for (i, a) in g.rooms.iter().enumerate() {
        let (lo, hi) = (a.room.rect.min(), a.room.rect.max());
        assert!(!g.map.position_oob(lo) && !g.map.position_oob(hi));
        for (j, b) in g.rooms.iter().enumerate() {
            if i != j {
                assert!(!a.room.rect.intersect(&b.room.rect));
            }
        }
    }
    for exit in &g.exits {
        for w in exit.path.windows(2) {
            let d = IVec3::new(
                w[1].position.x - w[0].position.x,
                w[1].position.y - w[0].position.y,
                w[1].position.z - w[0].position.z,
            );
            assert_eq!(d, w[1].orientation.step());
        }
        for p in &exit.path {
            assert!(!g.map.position_oob(p.position));
        }
    }
}

#[test]
fn seed_room_fits_ranges() {
    let mut g = BranchGenerator::new(GridMap::default(), GenConfig::default(), tile());
    assert_eq!(g.state, GameState::StartMapGen);
    for _ in 0..50 {
        g.map_branching_start();
        assert_eq!(g.state, GameState::MapGen);
        assert_eq!(g.room_spawn_attempts.0, 1);
        assert_eq!(g.rooms.len(), 1);
        let r = g.rooms[0].room.rect;
        let size = r.max().add(IVec3::new(1, 1, 1));
        let (w, h, l) = (size.x - r.min().x, size.y - r.min().y, size.z - r.min().z);
        assert!((6..10).contains(&w) && (1..3).contains(&h) && (6..10).contains(&l));
        assert!(!g.map.position_oob(r.min()) && !g.map.position_oob(r.max()));
        assert_eq!(g.rooms[0].room.ceiling, tile());
    }
}

#[test]
fn end_to_end_generation() {
    for _ in 0..5 {
        let mut g = BranchGenerator::new(GridMap::default(), GenConfig::default(), tile());
        let (invocations, _) = run_until_grow_ends(&mut g);
        assert!(invocations <= 30);
        match g.state {
            GameState::SpawnActors => {
                assert!(g.rooms.len() >= 3);
                check_layout(&g);
            },
            GameState::StartMapGen => {
                assert!(g.rooms.is_empty() && g.exits.is_empty() && g.entrances.is_empty());
                assert!(map_is_empty(&g.map));
            },
            other => panic!("unexpected phase {:?}", other),
        }
    }
}

#[test]
fn failed_run_wipes_everything() {
    let config = GenConfig { min_rooms: 1000, max_attempts: 12, ..GenConfig::default() };
    let mut g = BranchGenerator::new(GridMap::default(), config, tile());
    let (invocations, most_rooms) = run_until_grow_ends(&mut g);
    assert_eq!(invocations, 12);
    assert!(most_rooms >= 1);
    assert_eq!(g.state, GameState::StartMapGen);
    assert!(g.rooms.is_empty());
    assert!(map_is_empty(&g.map));
    assert!(g.commands.queue.iter().any(|c| matches!(c, crypthack::grid::SurfaceCommand::Despawn { .. })));
}

#[test]
fn grow_phase_ends_at_max_attempts() {
    let config = GenConfig { min_rooms: 1, max_attempts: 1, ..GenConfig::default() };
    let mut g = BranchGenerator::new(GridMap::default(), config, tile());
    let (invocations, _) = run_until_grow_ends(&mut g);
    assert_eq!(invocations, 1);
    assert_eq!(g.state, GameState::SpawnActors);
    assert_eq!(g.rooms.len(), 1);
}

#[test]
fn growing_adds_corridors() {
    let mut g = BranchGenerator::new(GridMap::default(), GenConfig::default(), tile());
    g.map_branching_start();
    g.spawn_geometry();
    g.map_branching_generation();
    assert_eq!(g.room_spawn_attempts.0, 2);
    assert_eq!(g.state, GameState::MapGen);
    assert!(g.exits.len() <= 1 && g.rooms.len() <= 2);
    for _ in 0..20 {
        g.spawn_geometry();
        g.map_branching_generation();
    }
    assert!(!g.exits.is_empty());
    check_layout(&g);
    let excluded = g.collect_excluded(0);
    assert_eq!(excluded.len(), g.rooms[0].entrances.0.len() + g.rooms[0].exits.0.len());
}

fn room_at(x: i32, entrances: Vec<usize>, exits: Vec<usize>) -> RoomEntry {
    RoomEntry {
        room: Rect3Room {
            spawned_actors: vec![],
            rect: Rect3::new(IVec3::new(x, 0, 0), 6, 1, 6),
            ceiling: tile(),
            walls: tile(),
            floor: tile(),
        },
        entrances: Entrances(entrances),
        exits: Exits(exits),
    }
}

#[test]
fn weighted_room_selection() {
    let mut g = BranchGenerator::new(GridMap::default(), GenConfig::default(), tile());
    g.rooms = vec![room_at(0, vec![], vec![]), room_at(10, vec![], vec![]), room_at(20, vec![0], vec![0])];
    let weights = g.room_weights();
    assert_eq!(weights, vec![(0, 232792560), (1, 232792560), (2, 77597520)]);
    let mut counts = [0usize; 3];
    let trials = 12000;
    for _ in 0..trials {
        counts[g.pick_room().unwrap()] += 1;
    }
    assert!(counts[0] > counts[2]);
    assert!(counts[1] > counts[2]);
    // Expected shares 3/7, 3/7, 1/7.
    let expected = [trials as f64 * 3.0 / 7.0, trials as f64 * 3.0 / 7.0, trials as f64 / 7.0];
    let chi: f64 = (0..3).map(|i| (counts[i] as f64 - expected[i]).powi(2) / expected[i]).sum();
    assert!(chi < 20.0, "chi-square {}", chi);
}

#[test]
fn room_fit_checks() {
    let mut g = BranchGenerator::new(GridMap::default(), GenConfig::default(), tile());
    g.rooms = vec![room_at(0, vec![], vec![])];
    let path = vec![IVec3Tile::new(IVec3::new(30, 0, 3), TileType::East)];
    assert!(g.room_fits(Rect3::new(IVec3::new(10, 0, 0), 6, 1, 6), &path));
    assert!(!g.room_fits(Rect3::new(IVec3::new(5, 0, 0), 6, 1, 6), &path));
    assert!(!g.room_fits(Rect3::new(IVec3::new(28, 0, 0), 6, 1, 6), &path));
    assert!(!g.room_fits(Rect3::new(IVec3::new(76, 0, 0), 6, 1, 6), &path));
    assert!(!g.room_fits(Rect3::new(IVec3::new(40, -1, 0), 6, 1, 6), &path));
}

fn grow_fixture(x: i32) -> BranchGenerator {
    let mut g = BranchGenerator::new(GridMap::default(), GenConfig::default(), tile());
    g.rooms = vec![room_at(x, vec![], vec![])];
    g.rooms[0].room.rect = Rect3::new(IVec3::new(x, 0, 10), 6, 1, 6);
    g.room_spawn_attempts = crypthack::records::RoomSpawnAttempts(5);
    g.spawn_geometry();
    g
}

fn legs(list: &[(i32, bool)]) -> Vec<crypthack::corridor::Leg> {
    list.iter().map(|&(distance, turn_left)| crypthack::corridor::Leg { distance, turn_left }).collect()
}

#[test]
fn grow_with_attaches_room_after_completed_walk() {
    let mut g = grow_fixture(10);
    let origin = IVec3Tile::new(IVec3::new(15, 0, 12), TileType::East);
    let end = g.grow_with(0, Some(origin), &legs(&[(3, false)]), 6, 2, 6);
    assert_eq!(end, Some(crypthack::corridor::WalkEnd::Completed));
    assert_eq!(g.exits.len(), 1);
    assert_eq!(g.rooms[0].exits.0, vec![0]);
    assert_eq!(g.exits[0].path[0], origin);
    assert_eq!(g.exits[0].path.len(), 4);
    assert_eq!(g.rooms.len(), 2);
    let new_room = &g.rooms[1];
    assert_eq!((new_room.room.rect.min(), new_room.room.rect.max()), (IVec3::new(19, 0, 9), IVec3::new(24, 1, 14)));
    assert_eq!(new_room.entrances.0, vec![0]);
    assert_eq!(g.entrances[0].0, IVec3Tile::new(IVec3::new(19, 0, 12), TileType::West));
}

#[test]
fn grow_with_out_of_bounds_walk_gets_no_room() {
    let mut g = grow_fixture(0);
    let origin = IVec3Tile::new(IVec3::new(0, 0, 12), TileType::West);
    let end = g.grow_with(0, Some(origin), &legs(&[(3, true)]), 6, 1, 6);
    assert_eq!(end, Some(crypthack::corridor::WalkEnd::OutOfBounds));
    assert_eq!(g.exits.len(), 1);
    assert_eq!(g.exits[0].path, vec![origin]);
    assert_eq!(g.rooms.len(), 1);
    assert!(g.entrances.is_empty());
}

#[test]
fn grow_with_revisit_keeps_corridor_without_room() {
    let mut g = grow_fixture(10);
    let origin = IVec3Tile::new(IVec3::new(15, 0, 12), TileType::East);
    let end = g.grow_with(0, Some(origin), &legs(&[(3, true), (2, true), (2, true), (3, true)]), 6, 1, 6);
    assert_eq!(end, Some(crypthack::corridor::WalkEnd::Revisited));
    let path = &g.exits[0].path;
    assert_eq!(path.len(), 10);
    let last = path[path.len() - 1].position;
    assert_eq!(last, IVec3::new(16, 0, 12));
    assert_eq!(path.iter().filter(|t| t.position == last).count(), 2);
    assert_eq!(g.rooms.len(), 1);
    assert_eq!(g.rooms[0].exits.0, vec![0]);
}

#[test]
fn grow_with_no_origin_changes_nothing() {
    let mut g = grow_fixture(10);
    let end = g.grow_with(0, None, &legs(&[(3, true)]), 6, 1, 6);
    assert_eq!(end, None);
    assert!(g.exits.is_empty());
    assert_eq!(g.rooms.len(), 1);
}

#[test]
fn grow_step_outside_grow_phase_does_nothing() {
    let mut g = BranchGenerator::new(GridMap::default(), GenConfig::default(), tile());
    g.map_branching_generation();
    assert_eq!(g.state, GameState::StartMapGen);
    assert_eq!(g.room_spawn_attempts.0, 0);
    assert!(g.rooms.is_empty() && g.exits.is_empty() && g.commands.queue.is_empty());
}

#[test]
fn spawned_room_handles_carry_room_tiles() {
    let mut g = BranchGenerator::new(GridMap::default(), GenConfig::default(), tile());
    g.rooms = vec![room_at(3, vec![], vec![])];
    g.rooms[0].room.ceiling = Tile { mesh: 1, material: 1 };
    g.rooms[0].room.floor = Tile { mesh: 2, material: 2 };
    g.spawn_rooms();
    let p = IVec3::new(3, 0, 0);
    let cell = g.map.at(p);
    let floor = cell[TileType::Floor.slot()].unwrap();
    let ceiling = cell[TileType::Ceiling.slot()].unwrap();
    let west = cell[TileType::West.slot()].unwrap();
    let spawn_of = |h: u64| {
        g.commands.queue.iter().find_map(|c| match c {
            crypthack::grid::SurfaceCommand::Spawn { handle, tile, orientation, position } if *handle == h => {
                Some((*tile, *orientation, *position))
            },
            _ => None,
        })
    };
    assert_eq!(spawn_of(floor), Some((Tile { mesh: 2, material: 2 }, TileType::Floor, p)));
    assert_eq!(spawn_of(ceiling), Some((Tile { mesh: 1, material: 1 }, TileType::Ceiling, p)));
    assert_eq!(spawn_of(west), Some((tile(), TileType::West, p)));
}
