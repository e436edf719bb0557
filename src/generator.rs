use vstd::prelude::*;

use crate::corridor::{Leg, WalkEnd, chained, path_view, walk_corridor, walk_spec, fresh};
use crate::geometry::{IVec3, IVec3Tile, Pos, Rect3, TileType, is_cardinal, opposite, pos_add, step_of};
use crate::grid::{Commands, GridMap, Tile, clear_all, despawned};
use crate::planning::{
    anchor_of,
    candidate_rect,
    candidate_spec,
    eligible_origin,
    on_wall_base,
    connection_weight,
    random_legs,
    random_surface_wall_point,
    rect_in_map,
    selection_weight,
    WEIGHT_SCALE,
};
use crate::random::{choose_weighted, random_range, weight_sum};
use crate::records::{
    Entrances,
    Exits,
    GameState,
    GenConfig,
    HoleEntrance,
    PathExit,
    Rect3Room,
    RoomEntry,
    RoomSpawnAttempts,
    MAX_SPAN,
};

verus! {

/// Some point of the path sits at `p`.
pub open spec fn path_has(path: Seq<IVec3Tile>, p: Pos) -> bool {
    exists|j: int| 0 <= j < path.len() && #[trigger] path[j].position@ == p
}

/// Every point of the path lies inside the map.
pub open spec fn path_in_map(map: GridMap, path: Seq<IVec3Tile>) -> bool {
    forall|j: int| 0 <= j < path.len() ==> map.in_bounds(#[trigger] path[j].position@)
}

/// A committed corridor: at least one point, all inside the map, a wall
/// orientation at the start, and consecutive points chained.
pub open spec fn exit_ok(map: GridMap, path: Seq<IVec3Tile>) -> bool {
    &&& path.len() >= 1
    &&& is_cardinal(path[0].orientation)
    &&& path_in_map(map, path)
    &&& chained(path_view(path))
}

/// Every room lies inside the map, and no two rooms share or touch a voxel.
pub open spec fn footprints_apart(map: GridMap, rooms: Seq<RoomEntry>) -> bool {
    &&& forall|i: int| 0 <= i < rooms.len() ==> rect_in_map(map, #[trigger] rooms[i].room.rect)
    &&& forall|i: int, j: int|
        0 <= i < rooms.len() && 0 <= j < rooms.len() && i != j ==> !(
        #[trigger] rooms[i].room.rect).meets(#[trigger] rooms[j].room.rect)
}

/// Every committed corridor is well formed.
pub open spec fn exits_ok(map: GridMap, exits: Seq<PathExit>) -> bool {
    forall|e: int| 0 <= e < exits.len() ==> exit_ok(map, #[trigger] exits[e].path@)
}

/// Every entrance sits inside the map on a wall orientation.
pub open spec fn entrances_ok(map: GridMap, entrances: Seq<HoleEntrance>) -> bool {
    forall|e: int|
        0 <= e < entrances.len() ==> {
            &&& map.in_bounds((#[trigger] entrances[e]).0.position@)
            &&& is_cardinal(entrances[e].0.orientation)
        }
}

/// The rooms' entrance and exit lists name existing records.
pub open spec fn links_ok(rooms: Seq<RoomEntry>, n_entrances: int, n_exits: int) -> bool {
    &&& forall|i: int, k: int|
        0 <= i < rooms.len() && 0 <= k < rooms[i].entrances.0@.len() ==> (
        #[trigger] rooms[i].entrances.0@[k]) < n_entrances
    &&& forall|i: int, k: int|
        0 <= i < rooms.len() && 0 <= k < rooms[i].exits.0@.len() ==> (
        #[trigger] rooms[i].exits.0@[k]) < n_exits
}

/// The voxel is free for a new room: unoccupied and off the corridor.
pub open spec fn voxel_free(map: GridMap, path: Seq<IVec3Tile>, p: Pos) -> bool {
    !map.occupied(p) && !path_has(path, p)
}

/// Voxel `p` of the box comes before `(x, y, z)` when walking x fastest, then y, then z.
pub open spec fn raster_before(p: Pos, x: int, y: int, z: int) -> bool {
    p.2 < z || (p.2 == z && (p.1 < y || (p.1 == y && p.0 < x)))
}

/// The state of a map generation run: the grid, the rooms, entrances and
/// corridors made so far, the attempt counter and the phase.
pub struct BranchGenerator {
    pub map: GridMap,
    pub commands: Commands,
    pub rooms: Vec<RoomEntry>,
    pub entrances: Vec<HoleEntrance>,
    pub exits: Vec<PathExit>,
    pub room_spawn_attempts: RoomSpawnAttempts,
    pub state: GameState,
    pub config: GenConfig,
    /// The tiles of the seed room.
    pub tiles: Tile,
    /// Rooms, corridors and entrances before these indices have been laid out
    /// in the map.
    pub rooms_spawned: usize,
    pub exits_spawned: usize,
    pub entrances_spawned: usize,
}

impl BranchGenerator {
    pub open spec fn rect_of(self, i: int) -> Rect3 {
        self.rooms@[i].room.rect
    }

    /// The invariant of a run: a well-formed map and configuration, at most
    /// one room per attempt, rooms apart inside the map, well-formed
    /// corridors and entrances, and links and layout counters in range.
    pub open spec fn wf(self) -> bool {
        &&& self.map.wf()
        &&& self.config.wf()
        &&& self.config.fits_map(self.map.dims())
        &&& 0 <= self.room_spawn_attempts.0
        &&& self.rooms@.len() <= self.room_spawn_attempts.0
        &&& footprints_apart(self.map, self.rooms@)
        &&& exits_ok(self.map, self.exits@)
        &&& entrances_ok(self.map, self.entrances@)
        &&& links_ok(self.rooms@, self.entrances@.len() as int, self.exits@.len() as int)
        &&& self.rooms_spawned <= self.rooms@.len()
        &&& self.exits_spawned <= self.exits@.len()
        &&& self.entrances_spawned <= self.entrances@.len()
    }

    /// The points that may not start a new corridor from room `i`: its
    /// entrances, then the first point of each of its exits.
    pub open spec fn excluded_points(self, i: int) -> Seq<IVec3> {
        let e = self.rooms@[i].entrances.0@;
        let x = self.rooms@[i].exits.0@;
        Seq::new(e.len(), |k: int| self.entrances@[e[k] as int].0.position) + Seq::new(
            x.len(),
            |k: int| self.exits@[x[k] as int].path@[0].position,
        )
    }

    /// The box fits a new room: inside the map, every voxel free, and apart
    /// from every existing room.
    pub open spec fn room_fits_spec(self, rect: Rect3, path: Seq<IVec3Tile>) -> bool {
        &&& rect_in_map(self.map, rect)
        &&& forall|p: Pos| rect.contains(p) ==> #[trigger] voxel_free(self.map, path, p)
        &&& forall|i: int| 0 <= i < self.rooms@.len() ==> !rect.meets(#[trigger] self.rooms@[i].room.rect)
    }

    /// The selection weight of room `i`.
    pub open spec fn room_weight(self, i: int) -> int {
        selection_weight(
            self.rooms@[i].entrances.0@.len() as int + self.rooms@[i].exits.0@.len() as int,
        )
    }

    /// A generator over an empty map, waiting to seed.
    pub fn new(map: GridMap, config: GenConfig, tiles: Tile) -> (r: BranchGenerator)
        requires
            map.wf(),
            config.wf(),
            config.fits_map(map.dims()),
        ensures
            r.wf(),
            r.map == map,
            r.config == config,
            r.tiles == tiles,
            r.state == GameState::StartMapGen,
            r.rooms@.len() == 0,
            r.exits@.len() == 0,
            r.entrances@.len() == 0,
            r.room_spawn_attempts.0 == 0,
    {
        BranchGenerator {
            map,
            commands: Commands::new(),
            rooms: Vec::new(),
            entrances: Vec::new(),
            exits: Vec::new(),
            room_spawn_attempts: RoomSpawnAttempts(0),
            state: GameState::StartMapGen,
            config,
            tiles,
            rooms_spawned: 0,
            exits_spawned: 0,
            entrances_spawned: 0,
        }
    }

    /// The entrances and exit starts of room `idx`.
    pub fn collect_excluded(&self, idx: usize) -> (r: Vec<IVec3>)
        requires
            self.wf(),
            idx < self.rooms@.len(),
        ensures
            r@ == self.excluded_points(idx as int),
    {
        let room = &self.rooms[idx];
        let ghost e = room.entrances.0@;
        let ghost x = room.exits.0@;
        let ghost target = self.excluded_points(idx as int);
        let mut exclude: Vec<IVec3> = Vec::new();
        let mut i: usize = 0;
        while i < room.entrances.0.len()
            invariant
                self.wf(),
                idx < self.rooms@.len(),
                room == &self.rooms@[idx as int],
                e == room.entrances.0@,
                x == room.exits.0@,
                target == self.excluded_points(idx as int),
                target.len() == e.len() + x.len(),
                i <= e.len(),
                exclude@.len() == i,
                forall|k: int| 0 <= k < i ==> #[trigger] exclude@[k] == target[k],
            decreases e.len() - i,
        {
            let id = room.entrances.0[i];
            assert(self.rooms@[idx as int].entrances.0@[i as int] < self.entrances@.len());
            exclude.push(self.entrances[id].0.position);
            i += 1;
        }
        let mut j: usize = 0;
        while j < room.exits.0.len()
            invariant
                self.wf(),
                idx < self.rooms@.len(),
                room == &self.rooms@[idx as int],
                e == room.entrances.0@,
                x == room.exits.0@,
                target == self.excluded_points(idx as int),
                target.len() == e.len() + x.len(),
                j <= x.len(),
                exclude@.len() == e.len() + j,
                forall|k: int| 0 <= k < e.len() + j ==> #[trigger] exclude@[k] == target[k],
            decreases x.len() - j,
        {
            let id = room.exits.0[j];
            assert(self.rooms@[idx as int].exits.0@[j as int] < self.exits@.len());
            assert(exit_ok(self.map, self.exits@[id as int].path@));
            exclude.push(self.exits[id].path[0].position);
            j += 1;
        }
        assert(exclude@ =~= target);
        exclude
    }

    /// Whether `rect` fits a new room next to the corridor `path`.
    pub fn room_fits(&self, rect: Rect3, path: &Vec<IVec3Tile>) -> (r: bool)
        requires
            self.wf(),
        ensures
            r == self.room_fits_spec(rect, path@),
    {
        let min = rect.min();
        let max = rect.max();
        if min.x < 0 || min.y < 0 || min.z < 0 || max.x >= self.map.width() || max.y
            >= self.map.height() || max.z >= self.map.length() {
            return false;
        }
        let mut i: usize = 0;
        while i < self.rooms.len()
            invariant
                self.wf(),
                i <= self.rooms@.len(),
                forall|k: int| 0 <= k < i ==> !rect.meets(#[trigger] self.rooms@[k].room.rect),
            decreases self.rooms@.len() - i,
        {
            if rect.intersect(&self.rooms[i].room.rect) {
                assert(rect.meets(self.rect_of(i as int)));
                return false;
            }
            i += 1;
        }
        let mut z: i32 = min.z;
        while z <= max.z
            invariant
                self.wf(),
                rect_in_map(self.map, rect),
                min@ == rect.lo(),
                max@ == rect.hi(),
                min.z <= z <= max.z + 1,
                forall|p: Pos|
                    rect.contains(p) && p.2 < z ==> #[trigger] voxel_free(self.map, path@, p),
            decreases max.z as int + 1 - z as int,
        {
            let mut y: i32 = min.y;
            while y <= max.y
                invariant
                    self.wf(),
                    rect_in_map(self.map, rect),
                    min@ == rect.lo(),
                    max@ == rect.hi(),
                    min.z <= z <= max.z,
                    min.y <= y <= max.y + 1,
                    forall|p: Pos|
                        rect.contains(p) && (p.2 < z || (p.2 == z && p.1 < y)) ==> #[trigger] voxel_free(
                            self.map,
                            path@,
                            p,
                        ),
                decreases max.y as int + 1 - y as int,
            {
                let mut x: i32 = min.x;
                while x <= max.x
                    invariant
                        self.wf(),
                        rect_in_map(self.map, rect),
                        min@ == rect.lo(),
                        max@ == rect.hi(),
                        min.z <= z <= max.z,
                        min.y <= y <= max.y,
                        min.x <= x <= max.x + 1,
                        forall|p: Pos|
                            rect.contains(p) && raster_before(p, x as int, y as int, z as int)
                                ==> #[trigger] voxel_free(self.map, path@, p),
                    decreases max.x as int + 1 - x as int,
                {
                    let p = IVec3::new(x, y, z);
                    if self.map.position_collides(p) {
                        assert(!voxel_free(self.map, path@, p@));
                        return false;
                    }
                    if crate::corridor::contains_position(path, p) {
                        let ghost j = choose|j: int| 0 <= j < path@.len() && #[trigger] path@[j].position == p;
                        assert(path@[j].position@ == p@);
                        assert(!voxel_free(self.map, path@, p@));
                        return false;
                    }
                    assert(voxel_free(self.map, path@, p@)) by {
                        if path_has(path@, p@) {
                            let j = choose|j: int| 0 <= j < path@.len() && #[trigger] path@[j].position@ == p@;
                            assert(path@[j].position == p);
                        }
                    }
                    x += 1;
                }
                y += 1;
            }
            z += 1;
        }
        true
    }

    /// The rooms paired with their selection weights, in order.
    pub fn room_weights(&self) -> (r: Vec<(usize, u64)>)
        requires
            self.wf(),
            self.room_spawn_attempts.0 <= i32::MAX,
        ensures
            r@.len() == self.rooms@.len(),
            forall|i: int| 0 <= i < r@.len() ==> (#[trigger] r@[i]).0 == i && r@[i].1 == self.room_weight(i),
            weight_sum(r@) <= u64::MAX,
    {
        let mut weights: Vec<(usize, u64)> = Vec::new();
        let mut i: usize = 0;
        while i < self.rooms.len()
            invariant
                self.wf(),
                i <= self.rooms@.len(),
                weights@.len() == i,
                forall|k: int| 0 <= k < i ==> (#[trigger] weights@[k]).0 == k && weights@[k].1 == self.room_weight(k),
                weight_sum(weights@) <= i * WEIGHT_SCALE,
            decreases self.rooms@.len() - i,
        {
            let entry = &self.rooms[i];
            let w = connection_weight(entry.entrances.0.len(), entry.exits.0.len());
            let ghost before = weights@;
            weights.push((i, w));
            assert(weights@.drop_last() =~= before);
            assert(weight_sum(weights@) == weight_sum(before) + w);
            i += 1;
        }
        assert(weight_sum(weights@) <= self.rooms@.len() * WEIGHT_SCALE);
        assert(self.rooms@.len() * WEIGHT_SCALE <= 2147483647 * 232792560) by (nonlinear_arith)
            requires self.rooms@.len() <= 2147483647, WEIGHT_SCALE == 232792560;
        weights
    }

    /// Seeds a run: one room of random size at a random place inside the
    /// map, with no entrances or exits, and the attempt counter at 1.
    pub fn map_branching_start(&mut self)
        requires
            old(self).wf(),
        ensures
            final(self).wf(),
            final(self).map == old(self).map,
            final(self).config == old(self).config,
            final(self).tiles == old(self).tiles,
            final(self).state == GameState::MapGen,
            final(self).room_spawn_attempts.0 == 1,
            final(self).rooms@.len() == 1,
            final(self).exits@.len() == 0,
            final(self).entrances@.len() == 0,
            final(self).rooms@[0].entrances.0@.len() == 0,
            final(self).rooms@[0].exits.0@.len() == 0,
            seed_rect_ok(final(self).config, final(self).rect_of(0)),
            final(self).rect_of(0).pos1@ == final(self).rect_of(0).lo(),
            final(self).rect_of(0).pos2@ == final(self).rect_of(0).hi(),
            final(self).rooms@[0].room.ceiling == old(self).tiles,
            final(self).rooms@[0].room.walls == old(self).tiles,
            final(self).rooms@[0].room.floor == old(self).tiles,
            final(self).rooms@[0].room.spawned_actors@.len() == 0,
            final(self).commands == old(self).commands,
    {
        let w = random_range(self.config.min_size, self.config.max_size);
        let h = random_range(self.config.min_height, self.config.max_height);
        let l = random_range(self.config.min_size, self.config.max_size);
        let x = random_range(0, self.map.width() - w);
        let y = random_range(0, self.map.height() - h);
        let z = random_range(0, self.map.length() - l);
        let rect = Rect3::new(IVec3::new(x, y, z), w, h, l);
        let room = Rect3Room {
            spawned_actors: Vec::new(),
            rect,
            ceiling: self.tiles,
            walls: self.tiles,
            floor: self.tiles,
        };
        let mut rooms: Vec<RoomEntry> = Vec::new();
        rooms.push(RoomEntry { room, entrances: Entrances(Vec::new()), exits: Exits(Vec::new()) });
        self.rooms = rooms;
        self.exits = Vec::new();
        self.entrances = Vec::new();
        self.rooms_spawned = 0;
        self.exits_spawned = 0;
        self.entrances_spawned = 0;
        self.room_spawn_attempts = RoomSpawnAttempts(1);
        self.state = GameState::MapGen;
    }

    /// Grows one corridor out of room `idx` from the drawn values: with no
    /// origin nothing happens; otherwise the corridor walked along `legs` from
    /// `origin` is committed as a new exit of the room, and when the walk
    /// completed and the `w` by `h` by `l` box beyond its end fits, a room is
    /// attached there. Returns how the walk ended.
    pub fn grow_with(
        &mut self,
        idx: usize,
        origin: Option<IVec3Tile>,
        legs: &Vec<Leg>,
        w: i32,
        h: i32,
        l: i32,
    ) -> (r: Option<WalkEnd>)
        requires
            old(self).wf(),
            idx < old(self).rooms@.len(),
            old(self).rooms@.len() < old(self).room_spawn_attempts.0,
            origin matches Some(t) ==> on_wall_base(old(self).rect_of(idx as int), t.position@)
                && is_cardinal(t.orientation),
            forall|t: int| 0 <= t < legs@.len() ==> #[trigger] legs@[t].distance >= 1,
            1 <= w <= MAX_SPAN,
            1 <= h <= MAX_SPAN,
            1 <= l <= MAX_SPAN,
        ensures
            final(self).wf(),
            grow_kept(*old(self), *final(self)),
            grown_room_attached(*old(self), *final(self)),
            grown_by(*old(self), *final(self), idx as int, origin, legs@, w, h, l, r),
    {
        let origin = match origin {
            None => {
                return None;
            },
            Some(t) => t,
        };
        assert(rect_in_map(self.map, self.rect_of(idx as int)));
        let walk = walk_corridor(&self.map, origin, legs);
        let end = walk.end;
        proof {
            lemma_walk_in_map(self.map, origin, legs@, path_view(walk.path@), walk.end);
        }
        let ghost pv = path_view(walk.path@);
        assert(exit_ok(self.map, walk.path@)) by {
            assert forall|j: int| 0 <= j < walk.path@.len() implies self.map.in_bounds(
                #[trigger] walk.path@[j].position@,
            ) by {
                assert(pv[j].0 == walk.path@[j].position@);
            }
            assert(pv[0] == origin@);
        }
        let exit = PathExit {
            path: walk.path,
            ceiling: self.rooms[idx].room.ceiling,
            walls: self.rooms[idx].room.walls,
            floor: self.rooms[idx].room.floor,
        };
        let ghost before = *self;
        if walk.end == WalkEnd::Completed {
            self.try_attach(&exit, w, h, l);
        }
        let ghost attached = *self;
        let exit_idx = self.exits.len();
        self.exits.push(exit);
        let ghost rooms_before = self.rooms@;
        let mut entry = self.rooms.remove(idx);
        entry.exits.0.push(exit_idx);
        self.rooms.insert(idx, entry);
        assert(self.rooms@ =~= rooms_before.update(idx as int, entry));
        assert(footprints_apart(self.map, self.rooms@)) by {
            assert forall|i: int| 0 <= i < self.rooms@.len() implies rect_in_map(
                self.map,
                #[trigger] self.rooms@[i].room.rect,
            ) by {
                assert(rect_in_map(attached.map, attached.rect_of(i)));
            }
            assert forall|i: int, j: int|
                0 <= i < self.rooms@.len() && 0 <= j < self.rooms@.len() && i != j implies !(
                #[trigger] self.rooms@[i].room.rect).meets(#[trigger] self.rooms@[j].room.rect) by {
                assert(!attached.rect_of(i).meets(attached.rect_of(j)));
            }
        }
        assert forall|i: int, k: int|
            0 <= i < self.rooms@.len() && 0 <= k < self.rooms@[i].exits.0@.len() implies (
            #[trigger] self.rooms@[i].exits.0@[k]) < self.exits@.len() by {
            if i != idx {
                assert(self.rooms@[i] == rooms_before[i]);
            }
        }
        assert forall|i: int, k: int|
            0 <= i < self.rooms@.len() && 0 <= k < self.rooms@[i].entrances.0@.len() implies (
            #[trigger] self.rooms@[i].entrances.0@[k]) < self.entrances@.len() by {
            assert(self.rooms@[i].entrances == rooms_before[i].entrances);
        }
        assert forall|e: int| 0 <= e < self.exits@.len() implies exit_ok(
            self.map,
            #[trigger] self.exits@[e].path@,
        ) by {}
        assert(self.exits@.drop_last() =~= attached.exits@);
        Some(end)
    }

    /// Attaches a new room beyond the end of a completed corridor when it
    /// fits, with an entrance where the corridor meets it.
    fn try_attach(&mut self, exit: &PathExit, w: i32, h: i32, l: i32)
        requires
            old(self).wf(),
            old(self).rooms@.len() < old(self).room_spawn_attempts.0,
            exit_ok(old(self).map, exit.path@),
            1 <= w <= MAX_SPAN,
            1 <= h <= MAX_SPAN,
            1 <= l <= MAX_SPAN,
        ensures
            final(self).wf(),
            (final(self).rooms@.len() == old(self).rooms@.len() + 1) == old(self).room_fits_spec(
                candidate_spec(
                    anchor_of(exit.path@.last()),
                    exit.path@.last().orientation,
                    w,
                    h,
                    l,
                ),
                exit.path@,
            ),
            final(self).rooms@.len() == old(self).rooms@.len() + 1 ==> new_room_ok(
                final(self).rooms@.last(),
                candidate_spec(anchor_of(exit.path@.last()), exit.path@.last().orientation, w, h, l),
                exit,
            ),
            final(self).commands == old(self).commands,
            final(self).map == old(self).map,
            final(self).config == old(self).config,
            final(self).tiles == old(self).tiles,
            final(self).state == old(self).state,
            final(self).room_spawn_attempts == old(self).room_spawn_attempts,
            final(self).exits@ == old(self).exits@,
            final(self).rooms@.len() == old(self).rooms@.len() || final(self).rooms@.len()
                == old(self).rooms@.len() + 1,
            forall|i: int| 0 <= i < old(self).rooms@.len() ==> #[trigger] final(self).rooms@[i] == old(self).rooms@[i],
            final(self).rooms@.len() == old(self).rooms@.len() ==> final(self).entrances@
                == old(self).entrances@,
            final(self).rooms@.len() == old(self).rooms@.len() + 1 ==> {
                &&& final(self).entrances@.len() == old(self).entrances@.len() + 1
                &&& entrance_attached(final(self).rooms@, final(self).entrances@, exit.path@)
            },
            forall|i: int| 0 <= i < old(self).entrances@.len() ==> #[trigger] final(self).entrances@[i] == old(self).entrances@[i],
    {
        let n = exit.path.len();
        let last = exit.path[n - 1];
        assert(self.map.in_bounds(exit.path@[n - 1].position@));
        assert(is_cardinal(last.orientation)) by {
            if n > 1 {
                let pv = path_view(exit.path@);
                assert(pv[n - 1] == exit.path@[n - 1]@);
                assert(pv[(n - 2) + 1].0 == pos_add(pv[n - 2].0, step_of(pv[(n - 2) + 1].1)));
            }
        }
        let anchor = last.position.add(last.orientation.step());
        assert(anchor == anchor_of(exit.path@.last()));
        let rect = candidate_rect(anchor, last.orientation, w, h, l);
        if self.room_fits(rect, &exit.path) {
            let ghost before = *self;
            let entrance_idx = self.entrances.len();
            self.entrances.push(HoleEntrance(IVec3Tile::new(anchor, last.orientation.opposite())));
            let mut ids: Vec<usize> = Vec::new();
            ids.push(entrance_idx);
            let room = Rect3Room {
                spawned_actors: Vec::new(),
                rect,
                ceiling: exit.ceiling,
                walls: exit.walls,
                floor: exit.floor,
            };
            let ghost rooms_before = self.rooms@;
            self.rooms.push(RoomEntry { room, entrances: Entrances(ids), exits: Exits(Vec::new()) });
            assert(self.rect_of(rooms_before.len() as int) == rect);
            assert(before.room_fits_spec(rect, exit.path@));
            assert forall|i: int| 0 <= i < self.rooms@.len() implies rect_in_map(
                self.map,
                #[trigger] self.rooms@[i].room.rect,
            ) by {
                if i < rooms_before.len() {
                    assert(self.rooms@[i] == rooms_before[i]);
                    assert(rect_in_map(before.map, before.rect_of(i)));
                }
            }
            assert forall|i: int, j: int|
                0 <= i < self.rooms@.len() && 0 <= j < self.rooms@.len() && i != j implies !(
                #[trigger] self.rooms@[i].room.rect).meets(#[trigger] self.rooms@[j].room.rect) by {
                if i < rooms_before.len() {
                    assert(self.rooms@[i] == rooms_before[i]);
                    assert(!rect.meets(before.rect_of(i)));
                }
                if j < rooms_before.len() {
                    assert(self.rooms@[j] == rooms_before[j]);
                    assert(!rect.meets(before.rect_of(j)));
                }
                if i < rooms_before.len() && j < rooms_before.len() {
                    assert(!before.rect_of(i).meets(before.rect_of(j)));
                }
            }
            assert forall|i: int, k: int|
                0 <= i < self.rooms@.len() && 0 <= k < self.rooms@[i].entrances.0@.len() implies (
                #[trigger] self.rooms@[i].entrances.0@[k]) < self.entrances@.len() by {
                if i < rooms_before.len() {
                    assert(self.rooms@[i] == rooms_before[i]);
                    assert(before.rooms@[i].entrances.0@[k] < before.entrances@.len());
                } else {
                    assert(self.rooms@[i].entrances.0@ == ids@);
                }
            }
            assert forall|i: int, k: int|
                0 <= i < self.rooms@.len() && 0 <= k < self.rooms@[i].exits.0@.len() implies (
                #[trigger] self.rooms@[i].exits.0@[k]) < self.exits@.len() by {
                if i < rooms_before.len() {
                    assert(self.rooms@[i] == rooms_before[i]);
                    assert(before.rooms@[i].exits.0@[k] < before.exits@.len());
                }
            }
            assert(footprints_apart(self.map, self.rooms@));
            assert(links_ok(self.rooms@, self.entrances@.len() as int, self.exits@.len() as int));
            assert(entrances_ok(self.map, self.entrances@)) by {
                assert forall|e: int| 0 <= e < self.entrances@.len() implies {
                    &&& self.map.in_bounds((#[trigger] self.entrances@[e]).0.position@)
                    &&& is_cardinal(self.entrances@[e].0.orientation)
                } by {
                    if e < before.entrances@.len() {
                        assert(self.entrances@[e] == before.entrances@[e]);
                    }
                }
            }
        }
    }
}

impl BranchGenerator {
    /// Throws the whole run away: every voxel cleared, with its surfaces
    /// despawned, and every room, entrance and corridor dropped. The next phase
    /// is seeding.
    fn restart(&mut self)
        requires
            old(self).wf(),
        ensures
            final(self).wf(),
            final(self).map.dims() == old(self).map.dims(),
            final(self).map.all_empty(),
            forall|p: Pos| #[trigger] old(self).map.in_bounds(p) ==> despawned(
                old(self).map.cell(p),
                final(self).commands.queue@,
            ),
            final(self).config == old(self).config,
            final(self).tiles == old(self).tiles,
            final(self).room_spawn_attempts == old(self).room_spawn_attempts,
            final(self).state == GameState::StartMapGen,
            final(self).rooms@.len() == 0,
            final(self).exits@.len() == 0,
            final(self).entrances@.len() == 0,
    {
        clear_all(&mut self.commands, &mut self.map);
        self.rooms = Vec::new();
        self.exits = Vec::new();
        self.entrances = Vec::new();
        self.rooms_spawned = 0;
        self.exits_spawned = 0;
        self.entrances_spawned = 0;
        self.state = GameState::StartMapGen;
    }

    /// One grow step. Once the attempt counter has reached the maximum, the
    /// run ends: with too few rooms it is wiped and seeding starts again,
    /// otherwise actors are spawned next. Before that, it picks a room with
    /// weight inversely proportional to its connections plus one, grows a
    /// corridor from it and maybe a room at the corridor's end, and counts
    /// the attempt. Outside the grow phase it does nothing.
    pub fn map_branching_generation(&mut self)
        requires
            old(self).wf(),
        ensures
            final(self).wf(),
            final(self).config == old(self).config,
            final(self).tiles == old(self).tiles,
            final(self).map.dims() == old(self).map.dims(),
            old(self).state != GameState::MapGen ==> {
                &&& final(self).state == old(self).state
                &&& final(self).room_spawn_attempts == old(self).room_spawn_attempts
                &&& final(self).map == old(self).map
                &&& final(self).commands == old(self).commands
                &&& final(self).rooms@ == old(self).rooms@
                &&& final(self).exits@ == old(self).exits@
                &&& final(self).entrances@ == old(self).entrances@
            },
            old(self).state == GameState::MapGen ==> (final(self).state == GameState::MapGen)
                == stays_in_grow(
                old(self).room_spawn_attempts.0 as int,
                old(self).config.max_attempts as int,
            ),
            old(self).state == GameState::MapGen && stays_in_grow(
                old(self).room_spawn_attempts.0 as int,
                old(self).config.max_attempts as int,
            ) ==> {
                &&& final(self).room_spawn_attempts.0 == old(self).room_spawn_attempts.0 + 1
                &&& final(self).map == old(self).map
                &&& final(self).rooms@.len() == old(self).rooms@.len() || final(self).rooms@.len()
                    == old(self).rooms@.len() + 1
                &&& forall|i: int|
                    0 <= i < old(self).rooms@.len() ==> #[trigger] final(self).rect_of(i)
                        == old(self).rect_of(i)
                &&& final(self).exits@.len() == old(self).exits@.len() || final(self).exits@.len()
                    == old(self).exits@.len() + 1
                &&& grown_room_attached(*old(self), *final(self))
                &&& final(self).commands == old(self).commands
                &&& (final(self).rooms@ == old(self).rooms@ && final(self).exits@
                    == old(self).exits@ && final(self).entrances@ == old(self).entrances@)
                    || grew_some_room(*old(self), *final(self))
                &&& old(self).some_room_owes_corridor() ==> final(self).exits@.len()
                    == old(self).exits@.len() + 1
            },
            old(self).state == GameState::MapGen && !stays_in_grow(
                old(self).room_spawn_attempts.0 as int,
                old(self).config.max_attempts as int,
            ) && old(self).rooms@.len() < old(self).config.min_rooms ==> {
                &&& final(self).state == GameState::StartMapGen
                &&& final(self).map.all_empty()
                &&& forall|p: Pos| #[trigger] old(self).map.in_bounds(p) ==> despawned(
                    old(self).map.cell(p),
                    final(self).commands.queue@,
                )
                &&& final(self).rooms@.len() == 0
                &&& final(self).exits@.len() == 0
                &&& final(self).entrances@.len() == 0
            },
            old(self).state == GameState::MapGen && !stays_in_grow(
                old(self).room_spawn_attempts.0 as int,
                old(self).config.max_attempts as int,
            ) && old(self).rooms@.len() >= old(self).config.min_rooms ==> {
                &&& final(self).state == GameState::SpawnActors
                &&& final(self).map == old(self).map
                &&& final(self).rooms@ == old(self).rooms@
                &&& final(self).exits@ == old(self).exits@
                &&& final(self).entrances@ == old(self).entrances@
                &&& final(self).commands == old(self).commands
            },
    {
        if self.state != GameState::MapGen {
            return ;
        }
        if self.room_spawn_attempts.0 >= self.config.max_attempts {
            if self.rooms.len() < self.config.min_rooms {
                self.restart();
            } else {
                self.state = GameState::SpawnActors;
            }
            return ;
        }
        self.room_spawn_attempts = RoomSpawnAttempts(self.room_spawn_attempts.0 + 1);
        let ghost mid = *self;
        if let Some(idx) = self.pick_room() {
            let exclude = self.collect_excluded(idx);
            let rect = self.rooms[idx].room.rect;
            assert(rect_in_map(self.map, self.rect_of(idx as int)));
            let origin = random_surface_wall_point(&exclude, rect, &self.map);
            let legs = random_legs(&self.config);
            let w = random_range(self.config.min_size, self.config.max_size);
            let h = random_range(self.config.min_height, self.config.max_height);
            let l = random_range(self.config.min_size, self.config.max_size);
            assert(old(self).excluded_points(idx as int) == exclude@);
            assert(old(self).rect_of(idx as int) == rect);
            assert(old(self).room_weight(idx as int) == mid.room_weight(idx as int));
            let r = self.grow_with(idx, origin, &legs, w, h, l);
            proof {
                if old(self).some_room_owes_corridor() {
                    assert(old(self).has_origin(idx as int));
                    let p = choose|p: IVec3| #[trigger]
                        eligible_origin(old(self).map, rect, exclude@, p);
                    assert(eligible_origin(mid.map, rect, exclude@, p));
                    assert(origin.is_some());
                }
                if origin.is_some() {
                    assert(grown_by(*old(self), *self, idx as int, origin, legs@, w, h, l, r));
                    assert(old(self).room_weight(idx as int) > 0);
                    assert(eligible_origin(
                        old(self).map,
                        old(self).rect_of(idx as int),
                        old(self).excluded_points(idx as int),
                        origin.unwrap().position,
                    ));
                    assert(grew_some_room(*old(self), *self));
                } else {
                    assert(!old(self).has_origin(idx as int));
                }
            }
        } else {
            proof {
                assert forall|i: int| 0 <= i < old(self).rooms@.len() implies #[trigger] old(self).room_weight(i) == 0 by {
                    assert(mid.room_weight(i) == 0);
                }
                assert(!old(self).some_room_owes_corridor());
            }
        }
    }

    /// Room `i` has a voxel a corridor may start from.
    pub open spec fn has_origin(self, i: int) -> bool {
        exists|p: IVec3| #[trigger]
            eligible_origin(self.map, self.rect_of(i), self.excluded_points(i), p)
    }

    /// Some room can be picked, and every room that can be picked has a voxel
    /// a corridor may start from: then a grow step owes a corridor.
    pub open spec fn some_room_owes_corridor(self) -> bool {
        &&& exists|i: int| 0 <= i < self.rooms@.len() && #[trigger] self.room_weight(i) > 0
        &&& forall|i: int|
            0 <= i < self.rooms@.len() && #[trigger] self.room_weight(i) > 0 ==> self.has_origin(i)
    }

    /// Picks a room at random, with weight inversely proportional to its
    /// entrances plus exits plus one; `None` only when every weight is zero.
    pub fn pick_room(&self) -> (r: Option<usize>)
        requires
            self.wf(),
        ensures
            r.is_none() <==> forall|i: int| 0 <= i < self.rooms@.len() ==> #[trigger] self.room_weight(i) == 0,
            r matches Some(i) ==> i < self.rooms@.len() && self.room_weight(i as int) > 0,
    {
        let weights = self.room_weights();
        let picked = choose_weighted(&weights);
        proof {
            if let Some(idx) = picked {
                let k = choose|k: int|
                    0 <= k < weights@.len() && #[trigger] weights@[k].0 == idx && weights@[k].1 > 0;
                assert(weights@[k].0 == k);
            }
            if picked.is_none() {
                assert forall|i: int| 0 <= i < self.rooms@.len() implies #[trigger] self.room_weight(i) == 0 by {
                    assert(weights@[i].1 == 0);
                }
            } else {
                let idx = picked.unwrap();
                assert(self.room_weight(idx as int) > 0);
            }
        }
        picked
    }
}

/// The grow phase goes on after an invocation that found the attempt counter
/// at `attempts`.
pub open spec fn stays_in_grow(attempts: int, max_attempts: int) -> bool {
    attempts < max_attempts
}

/// The grow phase is still going after `k` invocations, the first of which
/// found the attempt counter at `attempts`; every invocation that stays in
/// the phase counts one more attempt.
pub open spec fn still_growing(attempts: int, max_attempts: int, k: nat) -> bool
    decreases k,
{
    if k == 0 {
        true
    } else {
        stays_in_grow(attempts, max_attempts) && still_growing(
            attempts + 1,
            max_attempts,
            (k - 1) as nat,
        )
    }
}

/// A run seeded with the counter at 1 leaves the grow phase, for a restart or
/// for spawning actors, on or before the invocation numbered by the maximum
/// number of attempts.
pub proof fn lemma_grow_phase_ends(max_attempts: int)
    requires
        max_attempts >= 1,
    ensures
        !still_growing(1, max_attempts, max_attempts as nat),
{
    lemma_growing_bound(1, max_attempts, max_attempts as nat);
}

proof fn lemma_growing_bound(attempts: int, max_attempts: int, k: nat)
    requires
        k >= 1,
        k >= max_attempts - attempts + 1,
    ensures
        !still_growing(attempts, max_attempts, k),
    decreases k,
{
    if stays_in_grow(attempts, max_attempts) {
        lemma_growing_bound(attempts + 1, max_attempts, (k - 1) as nat);
    }
}

/// The displacement is one unit step along a single axis.
pub open spec fn unit_axis_step(d: Pos) -> bool {
    ||| d == (1int, 0int, 0int)
    ||| d == (-1int, 0int, 0int)
    ||| d == (0int, 1int, 0int)
    ||| d == (0int, -1int, 0int)
    ||| d == (0int, 0int, 1int)
    ||| d == (0int, 0int, -1int)
}

/// Every room of a well-formed run lies inside the map, voxel by voxel, and
/// no two rooms share a voxel or touch under the closed-interval test.
pub proof fn lemma_footprints(g: BranchGenerator)
    requires
        g.wf(),
    ensures
        forall|i: int, p: Pos|
            0 <= i < g.rooms@.len() && #[trigger] g.rooms@[i].room.rect.contains(p)
                ==> g.map.in_bounds(p),
        forall|i: int, j: int|
            0 <= i < g.rooms@.len() && 0 <= j < g.rooms@.len() && i != j ==> !(
            #[trigger] g.rooms@[i].room.rect).meets(#[trigger] g.rooms@[j].room.rect),
        forall|i: int, j: int, p: Pos|
            0 <= i < g.rooms@.len() && 0 <= j < g.rooms@.len() && i != j
                && #[trigger] g.rooms@[i].room.rect.contains(p)
                ==> !#[trigger] g.rooms@[j].room.rect.contains(p),
{
    assert forall|i: int, p: Pos|
        0 <= i < g.rooms@.len() && #[trigger] g.rooms@[i].room.rect.contains(p) implies g.map.in_bounds(p) by {
        assert(rect_in_map(g.map, g.rooms@[i].room.rect));
    }
    assert forall|i: int, j: int, p: Pos|
        0 <= i < g.rooms@.len() && 0 <= j < g.rooms@.len() && i != j
            && #[trigger] g.rooms@[i].room.rect.contains(p) implies !#[trigger] g.rooms@[j].room.rect.contains(p) by {
        assert(!g.rooms@[i].room.rect.meets(g.rooms@[j].room.rect));
    }
}

/// In every committed corridor of a well-formed run, consecutive points are
/// one unit step apart along a single axis, along the later point's
/// orientation; on a straight stretch that is the earlier point's orientation.
pub proof fn lemma_corridor_continuity(g: BranchGenerator)
    requires
        g.wf(),
    ensures
        forall|e: int, k: int|
            0 <= e < g.exits@.len() && 0 <= k < g.exits@[e].path@.len() - 1 ==> #[trigger] step_ok(
                g.exits@[e].path@,
                k,
            ),
{
    assert forall|e: int, k: int|
        0 <= e < g.exits@.len() && 0 <= k < g.exits@[e].path@.len() - 1 implies #[trigger] step_ok(
            g.exits@[e].path@,
            k,
        ) by {
        assert(exit_ok(g.map, g.exits@[e].path@));
        lemma_exit_step(g.map, g.exits@[e].path@, k);
    }
}

/// Point `k + 1` of the path is one unit step along one axis from point `k`,
/// along its own orientation, which is also point `k`'s when they agree.
pub open spec fn step_ok(path: Seq<IVec3Tile>, k: int) -> bool {
    &&& path[k + 1].position@ == pos_add(path[k].position@, step_of(path[k + 1].orientation))
    &&& unit_axis_step(step_of(path[k + 1].orientation))
    &&& (path[k + 1].orientation == path[k].orientation ==> path[k + 1].position@ == pos_add(
        path[k].position@,
        step_of(path[k].orientation),
    ))
}

proof fn lemma_exit_step(map: GridMap, path: Seq<IVec3Tile>, k: int)
    requires
        exit_ok(map, path),
        0 <= k < path.len() - 1,
    ensures
        step_ok(path, k),
{
    let pv = path_view(path);
    assert(pv[k] == path[k]@);
    assert(pv[k + 1] == path[k + 1]@);
    assert(pv[k + 1].0 == pos_add(pv[k].0, step_of(pv[k + 1].1)));
    assert(is_cardinal(pv[k + 1].1));
}

/// The last room was attached at the far end of `path`: its only entrance, the
/// last one recorded, sits one step past the corridor's last point, inside
/// the room, and opens the wall facing back down the corridor, whose last
/// point stays outside the room.
pub open spec fn entrance_attached(
    rooms: Seq<RoomEntry>,
    entrances: Seq<HoleEntrance>,
    path: Seq<IVec3Tile>,
) -> bool {
    let h = entrances.last().0;
    let last = path.last();
    let room = rooms.last();
    &&& rooms.len() >= 1
    &&& entrances.len() >= 1
    &&& room.entrances.0@ == seq![(entrances.len() - 1) as usize]
    &&& h.position@ == pos_add(last.position@, step_of(last.orientation))
    &&& h.orientation == opposite(last.orientation)
    &&& room.room.rect.contains(h.position@)
    &&& !room.room.rect.contains(last.position@)
    &&& room.exits.0@.len() == 0
}

/// The step grew a room that could be picked, from a voxel a corridor may
/// start from, with some legs and room size.
pub open spec fn grew_some_room(old: BranchGenerator, new: BranchGenerator) -> bool {
    exists|idx: int, origin: Option<IVec3Tile>, legs: Seq<Leg>, w: i32, h: i32, l: i32, r: Option<WalkEnd>|
        #[trigger] grown_by(old, new, idx, origin, legs, w, h, l, r) && 0 <= idx < old.rooms@.len()
            && old.room_weight(idx) > 0 && origin is Some && eligible_origin(
            old.map,
            old.rect_of(idx),
            old.excluded_points(idx),
            origin.unwrap().position,
        )
}

/// A room just attached: its box, no actors yet, and the corridor's tiles.
pub open spec fn new_room_ok(entry: RoomEntry, rect: Rect3, exit: &PathExit) -> bool {
    &&& entry.room.rect == rect
    &&& entry.room.spawned_actors@.len() == 0
    &&& entry.room.ceiling == exit.ceiling
    &&& entry.room.walls == exit.walls
    &&& entry.room.floor == exit.floor
}

/// What growing room `idx` from the drawn values did: with no origin,
/// nothing; otherwise one new corridor, the walk along `legs` from the origin
/// with the room's tiles, added to the room's exits, and a room attached
/// beyond its end exactly when the walk completed and the candidate box fits.
pub open spec fn grown_by(
    old: BranchGenerator,
    new: BranchGenerator,
    idx: int,
    origin: Option<IVec3Tile>,
    legs: Seq<Leg>,
    w: i32,
    h: i32,
    l: i32,
    r: Option<WalkEnd>,
) -> bool {
    &&& new.commands == old.commands
    &&& match origin {
        None => {
            &&& r is None
            &&& new.rooms@ == old.rooms@
            &&& new.exits@ == old.exits@
            &&& new.entrances@ == old.entrances@
        },
        Some(o) => {
            let e = new.exits@.last();
            let last = e.path@.last();
            let rect = candidate_spec(anchor_of(last), last.orientation, w, h, l);
            &&& r is Some
            &&& new.exits@.len() == old.exits@.len() + 1
            &&& new.exits@.drop_last() == old.exits@
            &&& walk_spec(old.map, o, legs, path_view(e.path@), r.unwrap())
            &&& e.ceiling == old.rooms@[idx].room.ceiling
            &&& e.walls == old.rooms@[idx].room.walls
            &&& e.floor == old.rooms@[idx].room.floor
            &&& new.rooms@[idx].exits.0@ == old.rooms@[idx].exits.0@.push(old.exits@.len() as usize)
            &&& new.rooms@[idx].entrances == old.rooms@[idx].entrances
            &&& new.rooms@[idx].room.rect == old.rooms@[idx].room.rect
            &&& forall|i: int|
                0 <= i < old.rooms@.len() && i != idx ==> #[trigger] new.rooms@[i] == old.rooms@[i]
            &&& (new.rooms@.len() == old.rooms@.len() + 1) == (r == Some(WalkEnd::Completed)
                && old.room_fits_spec(rect, e.path@))
            &&& new.rooms@.len() == old.rooms@.len() + 1 ==> new_room_ok(new.rooms@.last(), rect, &e)
        },
    }
}

/// A grow step that added a room also added the corridor leading to it, as
/// its last corridor, and the room sits at that corridor's far end; one that
/// added no room added no entrance.
pub open spec fn grown_room_attached(old: BranchGenerator, new: BranchGenerator) -> bool {
    &&& new.rooms@.len() == old.rooms@.len() ==> new.entrances@ == old.entrances@
    &&& new.rooms@.len() == old.rooms@.len() + 1 ==> {
        &&& new.exits@.len() == old.exits@.len() + 1
        &&& new.entrances@.len() == old.entrances@.len() + 1
        &&& entrance_attached(new.rooms@, new.entrances@, new.exits@.last().path@)
    }
}

/// Laying out geometry changes the map's cells and nothing else of the run.
pub open spec fn keeps_records(old: BranchGenerator, new: BranchGenerator) -> bool {
    &&& new.map.dims() == old.map.dims()
    &&& new.rooms@ == old.rooms@
    &&& new.exits@ == old.exits@
    &&& new.entrances@ == old.entrances@
    &&& new.config == old.config
    &&& new.tiles == old.tiles
    &&& new.state == old.state
    &&& new.room_spawn_attempts == old.room_spawn_attempts
}

/// A run stays well formed when its map is replaced by one of the same extents.
pub proof fn lemma_wf_new_map(old: BranchGenerator, new: BranchGenerator)
    requires
        old.wf(),
        new.map.wf(),
        keeps_records(old, new),
        new.rooms_spawned <= new.rooms@.len(),
        new.exits_spawned <= new.exits@.len(),
        new.entrances_spawned <= new.entrances@.len(),
    ensures
        new.wf(),
{
    assert forall|i: int| 0 <= i < new.rooms@.len() implies rect_in_map(
        new.map,
        #[trigger] new.rooms@[i].room.rect,
    ) by {
        assert(rect_in_map(old.map, old.rooms@[i].room.rect));
    }
    assert forall|e: int| 0 <= e < new.exits@.len() implies exit_ok(
        new.map,
        #[trigger] new.exits@[e].path@,
    ) by {
        assert(exit_ok(old.map, old.exits@[e].path@));
        assert forall|j: int| 0 <= j < new.exits@[e].path@.len() implies new.map.in_bounds(
            #[trigger] new.exits@[e].path@[j].position@,
        ) by {
            assert(old.map.in_bounds(old.exits@[e].path@[j].position@));
        }
    }
    assert forall|e: int| 0 <= e < new.entrances@.len() implies {
        &&& new.map.in_bounds((#[trigger] new.entrances@[e]).0.position@)
        &&& is_cardinal(new.entrances@[e].0.orientation)
    } by {
        assert(old.map.in_bounds(old.entrances@[e].0.position@));
    }
}

/// A seed room fits the size ranges of the configuration.
pub open spec fn seed_rect_ok(config: GenConfig, rect: Rect3) -> bool {
    &&& config.min_size <= rect.hi().0 - rect.lo().0 + 1 < config.max_size
    &&& config.min_height <= rect.hi().1 - rect.lo().1 + 1 < config.max_height
    &&& config.min_size <= rect.hi().2 - rect.lo().2 + 1 < config.max_size
}

/// One grow step keeps what was there: the map, the settings, the earlier
/// rooms' boxes, and the earlier corridors and entrances; it adds at most one
/// room and one corridor.
pub open spec fn grow_kept(old: BranchGenerator, new: BranchGenerator) -> bool {
    &&& new.map == old.map
    &&& new.config == old.config
    &&& new.tiles == old.tiles
    &&& new.state == old.state
    &&& new.room_spawn_attempts == old.room_spawn_attempts
    &&& new.rooms@.len() == old.rooms@.len() || new.rooms@.len() == old.rooms@.len() + 1
    &&& forall|i: int| 0 <= i < old.rooms@.len() ==> #[trigger] new.rect_of(i) == old.rect_of(i)
    &&& new.exits@.len() == old.exits@.len() || new.exits@.len() == old.exits@.len() + 1
    &&& forall|i: int| 0 <= i < old.exits@.len() ==> #[trigger] new.exits@[i] == old.exits@[i]
    &&& forall|i: int| 0 <= i < old.entrances@.len() ==> #[trigger] new.entrances@[i] == old.entrances@[i]
}

/// Every point of a walk lies inside the map: a point outside it is never added.
pub proof fn lemma_walk_in_map(
    map: GridMap,
    origin: IVec3Tile,
    legs: Seq<crate::corridor::Leg>,
    path: Seq<(Pos, TileType)>,
    end: WalkEnd,
)
    requires
        map.in_bounds(origin.position@),
        walk_spec(map, origin, legs, path, end),
    ensures
        forall|k: int| 0 <= k < path.len() ==> map.in_bounds(#[trigger] path[k].0),
{
    let n = path.len() as int;
    assert forall|k: int| 0 <= k < n implies map.in_bounds(#[trigger] path[k].0) by {
        if k == 0 {
        } else if k < n - 1 {
            assert(fresh(map, path, k));
        } else {
            match end {
                WalkEnd::Completed => {
                    assert(fresh(map, path, k));
                },
                WalkEnd::Revisited => {
                    let j = choose|j: int| 0 <= j < k && #[trigger] path[j].0 == path[k].0;
                    if j > 0 {
                        assert(fresh(map, path, j));
                    }
                },
                WalkEnd::OutOfBounds => {
                    assert(fresh(map, path, k));
                },
                WalkEnd::Collided => {},
            }
        }
    }
}

} // verus!
