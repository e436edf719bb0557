use vstd::prelude::*;

use crate::geometry::{IVec3Tile, Rect3};
use crate::grid::Tile;

verus! {

/// The phases of the game; map generation runs through the middle three.
#[derive(Clone, Copy, Debug, PartialEq, Eq, Structural)]
pub enum GameState {
    Loading,
    StartMapGen,
    MapGen,
    SpawnActors,
    Playing,
}

/// The indices of the entrances punched into a room.
#[derive(Clone, Debug)]
pub struct Entrances(pub Vec<usize>);

/// The indices of the corridors grown out of a room.
#[derive(Clone, Debug)]
pub struct Exits(pub Vec<usize>);

/// A rectangular room: its box and the tiles of its surfaces.
#[derive(Clone, Debug)]
pub struct Rect3Room {
    /// Actors placed in the room; empty when the room is made.
    pub spawned_actors: Vec<u64>,
    pub rect: Rect3,
    pub ceiling: Tile,
    pub walls: Tile,
    pub floor: Tile,
}

/// A room with its entrances and exits.
#[derive(Clone, Debug)]
pub struct RoomEntry {
    pub room: Rect3Room,
    pub entrances: Entrances,
    pub exits: Exits,
}

/// Where a corridor punches into a room, and the wall it opens.
#[derive(Clone, Copy, Debug, PartialEq, Eq, Structural)]
pub struct HoleEntrance(pub IVec3Tile);

/// A corridor: its oriented points and the tiles of its surfaces.
#[derive(Clone, Debug)]
pub struct PathExit {
    pub path: Vec<IVec3Tile>,
    pub ceiling: Tile,
    pub walls: Tile,
    pub floor: Tile,
}

/// How many grow steps the current generation run has taken.
#[derive(Clone, Copy, Debug, PartialEq, Eq, Structural)]
pub struct RoomSpawnAttempts(pub i32);

/// The tunables of map generation. Ranges with `min` and `max` are half open
/// for room sizes and closed for corridor turns and leg distances.
#[derive(Clone, Copy, Debug, PartialEq, Eq, Structural)]
pub struct GenConfig {
    pub min_rooms: usize,
    pub max_attempts: i32,
    pub min_size: i32,
    pub max_size: i32,
    pub min_height: i32,
    pub max_height: i32,
    pub min_turns: i32,
    pub max_turns: i32,
    pub min_dist: i32,
    pub max_dist: i32,
}

/// The largest room extent and corridor leg that a configuration may ask for.
pub const MAX_SPAN: i32 = 1000;

impl GenConfig {
    /// The ranges are non-empty and small enough for the map's arithmetic.
    pub open spec fn wf(self) -> bool {
        &&& 1 <= self.min_size < self.max_size <= MAX_SPAN
        &&& 1 <= self.min_height < self.max_height <= MAX_SPAN
        &&& 0 <= self.min_turns <= self.max_turns <= MAX_SPAN
        &&& 1 <= self.min_dist <= self.max_dist <= MAX_SPAN
    }

    /// The map is wide, high and long enough to seed a room of any drawn size.
    pub open spec fn fits_map(self, dims: (int, int, int)) -> bool {
        &&& self.max_size <= dims.0
        &&& self.max_height <= dims.1
        &&& self.max_size <= dims.2
    }
}

impl Default for GenConfig {
    /// Rooms of 6 to 9 by 1 to 2 by 6 to 9 voxels, one to four turns per
    /// corridor, legs of 3 to 10 voxels, at least 3 rooms after 30 attempts.
    fn default() -> (r: GenConfig)
        ensures
            r.wf(),
            r == (GenConfig {
                min_rooms: 3,
                max_attempts: 30,
                min_size: 6,
                max_size: 10,
                min_height: 1,
                max_height: 3,
                min_turns: 1,
                max_turns: 4,
                min_dist: 3,
                max_dist: 10,
            }),
    {
        GenConfig {
            min_rooms: 3,
            max_attempts: 30,
            min_size: 6,
            max_size: 10,
            min_height: 1,
            max_height: 3,
            min_turns: 1,
            max_turns: 4,
            min_dist: 3,
            max_dist: 10,
        }
    }
}

} // verus!
