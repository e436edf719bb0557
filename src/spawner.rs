use vstd::prelude::*;

use crate::corridor::{chained, path_view, turn_ok};
use crate::geometry::{IVec3, IVec3Tile, Pos, Rect3, TileType, is_cardinal, opposite, rotated, slot_of};
use crate::grid::{
    Commands,
    GridMap,
    SurfaceCommand,
    Tile,
    clear_position,
    clear_tile,
    despawned,
    despawns,
    lemma_cleared_covers,
    lemma_despawned_grow,
    lemma_despawns_only,
    spawn_tile,
};
use crate::generator::{
    BranchGenerator,
    exit_ok,
    keeps_records,
    path_has,
    lemma_wf_new_map,
    path_in_map,
    raster_before,
};
use crate::planning::rect_in_map;
use crate::records::{HoleEntrance, PathExit, Rect3Room, RoomEntry};

verus! {

/// Slot `s` of voxel `p` of a laid-out room holds a surface: the ceiling on
/// the top layer, the floor on the bottom layer, and the wall of each side
/// face on that face.
pub open spec fn room_slot(rect: Rect3, p: Pos, s: int) -> bool {
    ||| s == 1 && p.1 == rect.hi().1
    ||| s == 2 && p.1 == rect.lo().1
    ||| s == 3 && p.2 == rect.hi().2
    ||| s == 4 && p.0 == rect.hi().0
    ||| s == 5 && p.2 == rect.lo().2
    ||| s == 6 && p.0 == rect.lo().0
}

/// The cell of voxel `p` of a laid-out room.
pub open spec fn room_cell(rect: Rect3, p: Pos, c: Seq<Option<u64>>) -> bool {
    &&& c.len() == 7
    &&& forall|s: int| 0 <= s < 7 ==> (#[trigger] c[s].is_some() <==> room_slot(rect, p, s))
}

/// The two side walls of a corridor voxel facing `o` whose next voxel faces
/// `next`: both sides on a straight stretch, else the wall ahead and the side
/// away from the turn.
pub open spec fn side_walls(o: TileType, next: TileType) -> (TileType, TileType) {
    if next == o {
        (rotated(o, true), rotated(o, false))
    } else if next == rotated(o, true) {
        (o, rotated(o, false))
    } else {
        (o, rotated(o, true))
    }
}

/// The cell of an inner corridor voxel: ceiling, floor and the two side walls.
pub open spec fn corridor_cell(w: (TileType, TileType), c: Seq<Option<u64>>) -> bool {
    &&& c.len() == 7
    &&& forall|s: int|
        0 <= s < 7 ==> (#[trigger] c[s].is_some() <==> (s == 1 || s == 2 || s == slot_of(w.0)
            || s == slot_of(w.1)))
}

/// The tile a room puts in a slot: its ceiling, its floor, or its walls.
pub open spec fn room_tile(room: Rect3Room, t: TileType) -> Tile {
    if t == TileType::Ceiling {
        room.ceiling
    } else if t == TileType::Floor {
        room.floor
    } else {
        room.walls
    }
}

/// A command queued while laying out `room`: a despawn, or a spawn of the
/// room's tile for that slot at a voxel of the room.
pub open spec fn room_command_ok(c: SurfaceCommand, room: Rect3Room) -> bool {
    match c {
        SurfaceCommand::Spawn { handle, tile, orientation, position } => room.rect.contains(position@)
            && tile == room_tile(room, orientation),
        SurfaceCommand::Despawn { handle } => true,
    }
}

/// The commands queued after `q0` in `q1` all pass `room_command_ok`.
pub open spec fn room_commands_ok(q0: Seq<SurfaceCommand>, q1: Seq<SurfaceCommand>, room: Rect3Room) -> bool {
    &&& q0.is_prefix_of(q1)
    &&& forall|k: int| q0.len() <= k < q1.len() ==> room_command_ok(#[trigger] q1[k], room)
}

proof fn lemma_room_step(
    q0: Seq<SurfaceCommand>,
    qb: Seq<SurfaceCommand>,
    q1: Seq<SurfaceCommand>,
    c: Seq<Option<u64>>,
    room: Rect3Room,
)
    requires
        room_commands_ok(q0, qb, room),
        despawned(c, qb),
        q1 == qb.push(q1.last()),
        room_command_ok(q1.last(), room),
    ensures
        room_commands_ok(q0, q1, room),
        despawned(c, q1),
{
    assert(q1 =~= qb + seq![q1.last()]);
    lemma_despawned_grow(c, qb, seq![q1.last()]);
    assert forall|k: int| q0.len() <= k < q1.len() implies room_command_ok(#[trigger] q1[k], room) by {
        if k < qb.len() {
            assert(q1[k] == qb[k]);
        }
    }
    assert(q1.subrange(0, q0.len() as int) =~= qb.subrange(0, q0.len() as int));
}

proof fn lemma_room_trans(
    q0: Seq<SurfaceCommand>,
    qb: Seq<SurfaceCommand>,
    q1: Seq<SurfaceCommand>,
    room: Rect3Room,
)
    requires
        room_commands_ok(q0, qb, room),
        room_commands_ok(qb, q1, room),
    ensures
        room_commands_ok(q0, q1, room),
{
    assert forall|k: int| q0.len() <= k < q1.len() implies room_command_ok(#[trigger] q1[k], room) by {
        if k < qb.len() {
            assert(q1[k] == qb[k]);
        }
    }
    assert(q1.subrange(0, q0.len() as int) =~= qb.subrange(0, q0.len() as int));
}

/// Despawns queued stay queued as the queue grows.
proof fn lemma_despawned_prefix(c: Seq<Option<u64>>, q0: Seq<SurfaceCommand>, q1: Seq<SurfaceCommand>)
    requires
        despawned(c, q0),
        q0.is_prefix_of(q1),
    ensures
        despawned(c, q1),
{
    let extra = q1.subrange(q0.len() as int, q1.len() as int);
    assert(q0 + extra =~= q1);
    lemma_despawned_grow(c, q0, extra);
}

/// A command queued while laying out `exit`: a despawn, or a spawn of the
/// corridor's wall tile at a point of its path.
pub open spec fn exit_command_ok(c: SurfaceCommand, exit: PathExit) -> bool {
    match c {
        SurfaceCommand::Spawn { handle, tile, orientation, position } => tile == exit.walls
            && path_has(exit.path@, position@),
        SurfaceCommand::Despawn { handle } => true,
    }
}

/// The commands queued after `q0` in `q1` all pass `exit_command_ok`.
pub open spec fn exit_commands_ok(q0: Seq<SurfaceCommand>, q1: Seq<SurfaceCommand>, exit: PathExit) -> bool {
    &&& q0.is_prefix_of(q1)
    &&& forall|k: int| q0.len() <= k < q1.len() ==> exit_command_ok(#[trigger] q1[k], exit)
}

/// The wall slot that point `i` of a corridor opens, if any: the start's
/// own wall, the last point's back wall.
pub open spec fn opened_slot(path: Seq<IVec3Tile>, i: int) -> Option<int> {
    if i == 0 {
        Some(slot_of(path[0].orientation))
    } else if i == path.len() - 1 {
        Some(slot_of(opposite(path[i].orientation)))
    } else {
        None
    }
}

/// The surface that was in the opened slot, if any, has a despawn queued.
pub open spec fn opened_wall_despawned(c: Seq<Option<u64>>, s: Option<int>, q: Seq<SurfaceCommand>) -> bool {
    s is Some && c[s.unwrap()] is Some ==> q.contains(
        SurfaceCommand::Despawn { handle: c[s.unwrap()].unwrap() },
    )
}

proof fn lemma_exit_cmd_step(
    q0: Seq<SurfaceCommand>,
    qb: Seq<SurfaceCommand>,
    q1: Seq<SurfaceCommand>,
    exit: PathExit,
)
    requires
        exit_commands_ok(q0, qb, exit),
        q1 == qb.push(q1.last()),
        exit_command_ok(q1.last(), exit),
    ensures
        exit_commands_ok(q0, q1, exit),
{
    assert forall|k: int| q0.len() <= k < q1.len() implies exit_command_ok(#[trigger] q1[k], exit) by {
        if k < qb.len() {
            assert(q1[k] == qb[k]);
        }
    }
    assert(q1.subrange(0, q0.len() as int) =~= qb.subrange(0, q0.len() as int));
}

proof fn lemma_exit_cmd_trans(
    q0: Seq<SurfaceCommand>,
    qb: Seq<SurfaceCommand>,
    q1: Seq<SurfaceCommand>,
    exit: PathExit,
)
    requires
        exit_commands_ok(q0, qb, exit),
        exit_commands_ok(qb, q1, exit),
    ensures
        exit_commands_ok(q0, q1, exit),
{
    assert forall|k: int| q0.len() <= k < q1.len() implies exit_command_ok(#[trigger] q1[k], exit) by {
        if k < qb.len() {
            assert(q1[k] == qb[k]);
        }
    }
    assert(q1.subrange(0, q0.len() as int) =~= qb.subrange(0, q0.len() as int));
}

proof fn lemma_opened_prefix(c: Seq<Option<u64>>, s: Option<int>, q0: Seq<SurfaceCommand>, q1: Seq<SurfaceCommand>)
    requires
        opened_wall_despawned(c, s, q0),
        q0.is_prefix_of(q1),
    ensures
        opened_wall_despawned(c, s, q1),
{
    if s is Some && c[s.unwrap()] is Some {
        let d = SurfaceCommand::Despawn { handle: c[s.unwrap()].unwrap() };
        let k = choose|k: int| 0 <= k < q0.len() && q0[k] == d;
        assert(q1[k] == q0[k]);
    }
}

/// The walls that corridor `path`, the one at index `e`, opens at its ends
/// had their old surfaces in `map` despawned in `q`, where no corridor with
/// index in `[from, e)` passed first (and, for the end, the path itself).
pub open spec fn exit_walls_despawned(
    path: Seq<IVec3Tile>,
    map: GridMap,
    exits: Seq<PathExit>,
    from: int,
    e: int,
    q: Seq<SurfaceCommand>,
) -> bool {
    let n = path.len() as int;
    &&& !on_exits_between(exits, from, e, path[0].position@) ==> opened_wall_despawned(
        map.cell(path[0].position@),
        opened_slot(path, 0),
        q,
    )
    &&& !on_exits_between(exits, from, e, path[n - 1].position@) && !among_first(
        path,
        path[n - 1].position@,
        n - 1,
    ) ==> opened_wall_despawned(map.cell(path[n - 1].position@), opened_slot(path, n - 1), q)
}

proof fn lemma_exits_walls_step(
    exits: Seq<PathExit>,
    s0: int,
    i: int,
    mb: GridMap,
    m0: GridMap,
    qb: Seq<SurfaceCommand>,
    q1: Seq<SurfaceCommand>,
)
    requires
        0 <= s0 <= i < exits.len(),
        exits[i].path@.len() >= 1,
        qb.is_prefix_of(q1),
        forall|e: int|
            s0 <= e < i ==> exit_walls_despawned(#[trigger] exits[e].path@, m0, exits, s0, e, qb),
        opened_wall_despawned(
            mb.cell(exits[i].path@[0].position@),
            opened_slot(exits[i].path@, 0),
            q1,
        ),
        !among_first(
            exits[i].path@,
            exits[i].path@[exits[i].path@.len() - 1].position@,
            exits[i].path@.len() - 1,
        ) ==> opened_wall_despawned(
            mb.cell(exits[i].path@[exits[i].path@.len() - 1].position@),
            opened_slot(exits[i].path@, exits[i].path@.len() - 1),
            q1,
        ),
        forall|p: Pos| !on_exits_between(exits, s0, i, p) ==> #[trigger] mb.cell(p) == m0.cell(p),
    ensures
        forall|e: int|
            s0 <= e < i + 1 ==> exit_walls_despawned(#[trigger] exits[e].path@, m0, exits, s0, e, q1),
{
    assert forall|e: int| s0 <= e < i + 1 implies exit_walls_despawned(
        #[trigger] exits[e].path@,
        m0,
        exits,
        s0,
        e,
        q1,
    ) by {
        let pe = exits[e].path@;
        let n = pe.len() as int;
        if e < i {
            assert(exit_walls_despawned(pe, m0, exits, s0, e, qb));
            if !on_exits_between(exits, s0, e, pe[0].position@) {
                lemma_opened_prefix(m0.cell(pe[0].position@), opened_slot(pe, 0), qb, q1);
            }
            if !on_exits_between(exits, s0, e, pe[n - 1].position@) && !among_first(pe, pe[n - 1].position@, n - 1) {
                lemma_opened_prefix(m0.cell(pe[n - 1].position@), opened_slot(pe, n - 1), qb, q1);
            }
        } else {
            if !on_exits_between(exits, s0, e, pe[0].position@) {
                assert(mb.cell(pe[0].position@) == m0.cell(pe[0].position@));
            }
            if !on_exits_between(exits, s0, e, pe[n - 1].position@) {
                assert(mb.cell(pe[n - 1].position@) == m0.cell(pe[n - 1].position@));
            }
        }
    }
}

/// The cells that corridor `path`, the one at index `e`, leaves exactly as
/// its layout says, from `m0` to `m1`, where no other corridor with index in
/// `[from, upto)` passes: its start and its last point keep every slot but
/// the opened wall; and the old surfaces of its inner points are despawned
/// in `q`.
pub open spec fn exit_cells_exact(
    path: Seq<IVec3Tile>,
    m0: GridMap,
    m1: GridMap,
    exits: Seq<PathExit>,
    from: int,
    e: int,
    upto: int,
    q: Seq<SurfaceCommand>,
) -> bool {
    let n = path.len() as int;
    let first = path[0].position@;
    let last = path[n - 1].position@;
    &&& !visited_again(path, 0, n) && !on_exits_between(exits, from, e, first) && !on_exits_between(
        exits,
        e + 1,
        upto,
        first,
    ) ==> m1.cell(first) == m0.cell(first).update(slot_of(path[0].orientation), None)
    &&& n >= 2 && !among_first(path, last, n - 1) && !on_exits_between(exits, from, e, last)
        && !on_exits_between(exits, e + 1, upto, last) ==> m1.cell(last) == m0.cell(last).update(
        slot_of(opposite(path[n - 1].orientation)),
        None,
    )
    &&& forall|k: int|
        0 < k < n - 1 && !among_first(path, path[k].position@, k) && !on_exits_between(
            exits,
            from,
            e,
            path[k].position@,
        ) ==> despawned(#[trigger] m0.cell(path[k].position@), q)
}

/// A command queued while laying out the corridors with index in
/// `[from, upto)`: a despawn, or a spawn of one of them's wall tile at a
/// point of its path.
pub open spec fn exits_command_ok(c: SurfaceCommand, exits: Seq<PathExit>, from: int, upto: int) -> bool {
    match c {
        SurfaceCommand::Spawn { handle, tile, orientation, position } => exists|e: int|
            from <= e < upto && #[trigger] exit_command_ok(c, exits[e]),
        SurfaceCommand::Despawn { handle } => true,
    }
}

/// The commands queued after `q0` in `q1` all pass `exits_command_ok`.
pub open spec fn exits_commands_ok(
    q0: Seq<SurfaceCommand>,
    q1: Seq<SurfaceCommand>,
    exits: Seq<PathExit>,
    from: int,
    upto: int,
) -> bool {
    &&& q0.is_prefix_of(q1)
    &&& forall|k: int| q0.len() <= k < q1.len() ==> exits_command_ok(#[trigger] q1[k], exits, from, upto)
}

proof fn lemma_exits_exact_step(
    exits: Seq<PathExit>,
    s0: int,
    i: int,
    m0: GridMap,
    mb: GridMap,
    m1: GridMap,
    q0: Seq<SurfaceCommand>,
    qb: Seq<SurfaceCommand>,
    q1: Seq<SurfaceCommand>,
)
    requires
        0 <= s0 <= i < exits.len(),
        exits[i].path@.len() >= 1,
        forall|e: int|
            s0 <= e < i ==> exit_cells_exact(#[trigger] exits[e].path@, m0, mb, exits, s0, e, i, qb),
        exits_commands_ok(q0, qb, exits, s0, i),
        exit_commands_ok(qb, q1, exits[i]),
        exit_cells_exact(exits[i].path@, mb, m1, exits, i, i, i + 1, q1),
        forall|p: Pos|
            !among_first(exits[i].path@, p, exits[i].path@.len() as int) ==> #[trigger] m1.cell(p)
                == mb.cell(p),
        forall|p: Pos| !on_exits_between(exits, s0, i, p) ==> #[trigger] mb.cell(p) == m0.cell(p),
    ensures
        forall|e: int|
            s0 <= e < i + 1 ==> exit_cells_exact(#[trigger] exits[e].path@, m0, m1, exits, s0, e, i + 1, q1),
        exits_commands_ok(q0, q1, exits, s0, i + 1),
{
    assert forall|k: int| q0.len() <= k < q1.len() implies exits_command_ok(#[trigger] q1[k], exits, s0, i + 1) by {
        if k < qb.len() {
            assert(q1[k] == qb[k]);
            if q1[k] is Spawn {
                let e = choose|e: int| s0 <= e < i && #[trigger] exit_command_ok(qb[k], exits[e]);
                assert(exit_command_ok(q1[k], exits[e]));
            }
        } else {
            assert(exit_command_ok(q1[k], exits[i]));
        }
    }
    assert(q1.subrange(0, q0.len() as int) =~= qb.subrange(0, q0.len() as int));
    assert forall|e: int| s0 <= e < i + 1 implies exit_cells_exact(
        #[trigger] exits[e].path@,
        m0,
        m1,
        exits,
        s0,
        e,
        i + 1,
        q1,
    ) by {
        let path = exits[e].path@;
        let n = path.len() as int;
        assert forall|p: Pos| !on_exits_between(exits, e + 1, i + 1, p) implies !on_exits_between(
            exits,
            e + 1,
            i,
            p,
        ) && (e < i ==> m1.cell(p) == mb.cell(p)) by {
            if on_exits_between(exits, e + 1, i, p) {
                let f = choose|f: int|
                    e + 1 <= f < i && #[trigger] among_first(exits[f].path@, p, exits[f].path@.len() as int);
                assert(among_first(exits[f].path@, p, exits[f].path@.len() as int));
            }
            if e < i && among_first(exits[i].path@, p, exits[i].path@.len() as int) {
                assert(on_exits_between(exits, e + 1, i + 1, p));
            }
        }
        assert forall|p: Pos| !on_exits_between(exits, s0, e, p) && e == i implies mb.cell(p) == m0.cell(p) by {}
        if e < i {
            assert(exit_cells_exact(path, m0, mb, exits, s0, e, i, qb));
            assert forall|k: int|
                0 < k < n - 1 && !among_first(path, path[k].position@, k) && !on_exits_between(
                    exits,
                    s0,
                    e,
                    path[k].position@,
                ) implies despawned(#[trigger] m0.cell(path[k].position@), q1) by {
                lemma_despawned_prefix(m0.cell(path[k].position@), qb, q1);
            }
        } else {
            assert forall|k: int|
                0 < k < n - 1 && !among_first(path, path[k].position@, k) && !on_exits_between(
                    exits,
                    s0,
                    e,
                    path[k].position@,
                ) implies despawned(#[trigger] m0.cell(path[k].position@), q1) by {
                assert(mb.cell(path[k].position@) == m0.cell(path[k].position@));
                assert(!on_exits_between(exits, i, i, path[k].position@));
            }
            assert(!on_exits_between(exits, i, i, path[0].position@));
            assert(!on_exits_between(exits, i, i, path[n - 1].position@));
        }
    }
}

/// The kind of surface kept in slot `s` of a cell record.
pub open spec fn slot_type(s: int) -> TileType {
    if s == 1 {
        TileType::Ceiling
    } else if s == 2 {
        TileType::Floor
    } else if s == 3 {
        TileType::North
    } else if s == 4 {
        TileType::East
    } else if s == 5 {
        TileType::South
    } else if s == 6 {
        TileType::West
    } else {
        TileType::Center
    }
}

/// The voxel at `p` as an integer coordinate.
pub open spec fn ivec_of(p: Pos) -> IVec3 {
    IVec3 { x: p.0 as i32, y: p.1 as i32, z: p.2 as i32 }
}

/// The orientation a spawn command places, `Center` for a despawn.
pub open spec fn orientation_of(c: SurfaceCommand) -> TileType {
    match c {
        SurfaceCommand::Spawn { handle, tile, orientation, position } => orientation,
        SurfaceCommand::Despawn { handle } => TileType::Center,
    }
}

/// Every filled slot of the cell at `p` holds the handle of a queued spawn of
/// that slot's surface there, with the room's tile for it.
pub open spec fn handles_spawned(c: Seq<Option<u64>>, p: Pos, room: Rect3Room, q: Seq<SurfaceCommand>) -> bool {
    forall|s: int|
        0 <= s < 7 && (#[trigger] c[s]) is Some ==> q.contains(
            SurfaceCommand::Spawn {
                handle: c[s].unwrap(),
                tile: room_tile(room, slot_type(s)),
                orientation: slot_type(s),
                position: ivec_of(p),
            },
        )
}

proof fn lemma_handles_step(
    cb: Seq<Option<u64>>,
    c1: Seq<Option<u64>>,
    p: Pos,
    room: Rect3Room,
    qb: Seq<SurfaceCommand>,
    q1: Seq<SurfaceCommand>,
    t: TileType,
    h: u64,
    pos: IVec3,
)
    requires
        handles_spawned(cb, p, room, qb),
        cb.len() == 7,
        pos@ == p,
        q1 == qb.push(
            SurfaceCommand::Spawn { handle: h, tile: room_tile(room, t), orientation: t, position: pos },
        ),
        c1 == cb.update(slot_of(t), Some(h)),
    ensures
        handles_spawned(c1, p, room, q1),
{
    assert(ivec_of(p) == pos);
    assert(slot_type(slot_of(t)) == t || t == TileType::Center);
    assert forall|s: int| 0 <= s < 7 && (#[trigger] c1[s]) is Some implies q1.contains(
        SurfaceCommand::Spawn {
            handle: c1[s].unwrap(),
            tile: room_tile(room, slot_type(s)),
            orientation: slot_type(s),
            position: ivec_of(p),
        },
    ) by {
        if s == slot_of(t) {
            assert(q1[qb.len() as int] == q1.last());
        } else {
            let x = SurfaceCommand::Spawn {
                handle: cb[s].unwrap(),
                tile: room_tile(room, slot_type(s)),
                orientation: slot_type(s),
                position: ivec_of(p),
            };
            let k = choose|k: int| 0 <= k < qb.len() && qb[k] == x;
            assert(q1[k] == x);
        }
    }
}

/// Spawns queued stay queued as the queue grows.
proof fn lemma_handles_prefix(c: Seq<Option<u64>>, p: Pos, room: Rect3Room, q0: Seq<SurfaceCommand>, q1: Seq<SurfaceCommand>)
    requires
        handles_spawned(c, p, room, q0),
        q0.is_prefix_of(q1),
    ensures
        handles_spawned(c, p, room, q1),
{
    assert forall|s: int| 0 <= s < 7 && (#[trigger] c[s]) is Some implies q1.contains(
        SurfaceCommand::Spawn {
            handle: c[s].unwrap(),
            tile: room_tile(room, slot_type(s)),
            orientation: slot_type(s),
            position: ivec_of(p),
        },
    ) by {
        let x = SurfaceCommand::Spawn {
            handle: c[s].unwrap(),
            tile: room_tile(room, slot_type(s)),
            orientation: slot_type(s),
            position: ivec_of(p),
        };
        let k = choose|k: int| 0 <= k < q0.len() && q0[k] == x;
        assert(q1[k] == q0[k]);
    }
}

/// A command queued while laying out the rooms with index in `[from, upto)`:
/// a despawn, or a spawn that one of them queues.
pub open spec fn rooms_command_ok(c: SurfaceCommand, rooms: Seq<RoomEntry>, from: int, upto: int) -> bool {
    match c {
        SurfaceCommand::Spawn { handle, tile, orientation, position } => exists|f: int|
            from <= f < upto && #[trigger] room_command_ok(c, rooms[f].room),
        SurfaceCommand::Despawn { handle } => true,
    }
}

/// The commands queued after `q0` in `q1` all pass `rooms_command_ok`.
pub open spec fn rooms_commands_ok(
    q0: Seq<SurfaceCommand>,
    q1: Seq<SurfaceCommand>,
    rooms: Seq<RoomEntry>,
    from: int,
    upto: int,
) -> bool {
    &&& q0.is_prefix_of(q1)
    &&& forall|k: int| q0.len() <= k < q1.len() ==> rooms_command_ok(#[trigger] q1[k], rooms, from, upto)
}

/// `q1` extends `q0` with despawn commands only.
pub open spec fn only_despawns_after(q0: Seq<SurfaceCommand>, q1: Seq<SurfaceCommand>) -> bool {
    &&& q0.is_prefix_of(q1)
    &&& forall|k: int| q0.len() <= k < q1.len() ==> (#[trigger] q1[k]) is Despawn
}

/// The voxels of the run's rooms and entrances not laid out yet.
pub open spec fn new_room_or_entrance(g: BranchGenerator) -> Set<Pos> {
    Set::new(
        |p: Pos|
            in_rooms_from(g.rooms@, g.rooms_spawned as int, p) || entrance_spots(
                g.entrances@,
                g.entrances_spawned as int,
            ).contains(p),
    )
}

/// `exit_cells_exact` at the voxels outside `skip`.
pub open spec fn exit_cells_exact_except(
    path: Seq<IVec3Tile>,
    m0: GridMap,
    m1: GridMap,
    exits: Seq<PathExit>,
    from: int,
    e: int,
    upto: int,
    q: Seq<SurfaceCommand>,
    skip: Set<Pos>,
) -> bool {
    let n = path.len() as int;
    let first = path[0].position@;
    let last = path[n - 1].position@;
    &&& !visited_again(path, 0, n) && !on_exits_between(exits, from, e, first) && !on_exits_between(
        exits,
        e + 1,
        upto,
        first,
    ) && !skip.contains(first) ==> m1.cell(first) == m0.cell(first).update(slot_of(path[0].orientation), None)
    &&& n >= 2 && !among_first(path, last, n - 1) && !on_exits_between(exits, from, e, last)
        && !on_exits_between(exits, e + 1, upto, last) && !skip.contains(last) ==> m1.cell(last)
        == m0.cell(last).update(slot_of(opposite(path[n - 1].orientation)), None)
    &&& forall|k: int|
        0 < k < n - 1 && !among_first(path, path[k].position@, k) && !on_exits_between(
            exits,
            from,
            e,
            path[k].position@,
        ) && !skip.contains(path[k].position@) ==> despawned(#[trigger] m0.cell(path[k].position@), q)
}

/// A command queued while laying out the new geometry of `g`: a despawn, a
/// spawn that a new room queues, or one that a new corridor queues.
pub open spec fn geometry_command_ok(c: SurfaceCommand, g: BranchGenerator) -> bool {
    ||| rooms_command_ok(c, g.rooms@, g.rooms_spawned as int, g.rooms@.len() as int)
    ||| exits_command_ok(c, g.exits@, g.exits_spawned as int, g.exits@.len() as int)
}

/// The commands queued after `g`'s in `q` all pass `geometry_command_ok`.
pub open spec fn geometry_commands_ok(g: BranchGenerator, q: Seq<SurfaceCommand>) -> bool {
    &&& g.commands.queue@.is_prefix_of(q)
    &&& forall|k: int| g.commands.queue@.len() <= k < q.len() ==> geometry_command_ok(#[trigger] q[k], g)
}

proof fn lemma_prefix_trans(q0: Seq<SurfaceCommand>, q1: Seq<SurfaceCommand>, q2: Seq<SurfaceCommand>)
    requires
        q0.is_prefix_of(q1),
        q1.is_prefix_of(q2),
    ensures
        q0.is_prefix_of(q2),
{
    assert(q2.subrange(0, q0.len() as int) =~= q1.subrange(0, q0.len() as int));
}

proof fn lemma_prefix_index(q0: Seq<SurfaceCommand>, q1: Seq<SurfaceCommand>, k: int)
    requires
        q0.is_prefix_of(q1),
        0 <= k < q0.len(),
    ensures
        q1[k] == q0[k],
{
    assert(q1.subrange(0, q0.len() as int)[k] == q1[k]);
}

proof fn lemma_exact_except(
    path: Seq<IVec3Tile>,
    m0: GridMap,
    m1: GridMap,
    m2: GridMap,
    m3: GridMap,
    exits: Seq<PathExit>,
    from: int,
    e: int,
    upto: int,
    q2: Seq<SurfaceCommand>,
    q3: Seq<SurfaceCommand>,
    skip: Set<Pos>,
)
    requires
        exit_cells_exact(path, m1, m2, exits, from, e, upto, q2),
        forall|p: Pos| !skip.contains(p) ==> #[trigger] m1.cell(p) == m0.cell(p),
        forall|p: Pos| !skip.contains(p) ==> #[trigger] m3.cell(p) == m2.cell(p),
        q2.is_prefix_of(q3),
    ensures
        exit_cells_exact_except(path, m0, m3, exits, from, e, upto, q3, skip),
{
    let n = path.len() as int;
    assert forall|k: int|
        0 < k < n - 1 && !among_first(path, path[k].position@, k) && !on_exits_between(
            exits,
            from,
            e,
            path[k].position@,
        ) && !skip.contains(path[k].position@) implies despawned(#[trigger] m0.cell(path[k].position@), q3) by {
        assert(m1.cell(path[k].position@) == m0.cell(path[k].position@));
        lemma_despawned_prefix(m1.cell(path[k].position@), q2, q3);
    }
}

/// Lays out one voxel of a room.
fn spawn_room_voxel(commands: &mut Commands, map: &mut GridMap, room: &Rect3Room, position: IVec3)
    requires
        old(map).wf(),
        old(map).in_bounds(position@),
        room.rect.contains(position@),
    ensures
        final(map).wf(),
        final(map).same_except(*old(map), position@),
        room_cell(room.rect, position@, final(map).cell(position@)),
        room_commands_ok(old(commands).queue@, final(commands).queue@, *room),
        despawned(old(map).cell(position@), final(commands).queue@),
        handles_spawned(final(map).cell(position@), position@, *room, final(commands).queue@),
{
    let ghost q0 = commands.queue@;
    let ghost old_cell = map.cell(position@);
    proof {
        map.lemma_cell_len(position@);
        lemma_cleared_covers(old_cell, q0);
        lemma_despawns_only(old_cell, 7);
    }
    let min = room.rect.min();
    let max = room.rect.max();
    let ghost p = position@;
    clear_position(commands, map, position);
    proof {
        let d = despawns(old_cell, 7);
        assert forall|k: int| q0.len() <= k < commands.queue@.len() implies room_command_ok(
            #[trigger] commands.queue@[k],
            *room,
        ) by {
            assert(commands.queue@[k] == d[k - q0.len()]);
        }
        assert(q0.is_prefix_of(commands.queue@)) by {
            assert(commands.queue@.subrange(0, q0.len() as int) =~= q0);
        }
    }
    let ghost c0 = map.cell(p);
    assert(handles_spawned(c0, p, *room, commands.queue@));
    if position.y == max.y {
        let ghost qb = commands.queue@;
        let ghost cb = map.cell(p);
        let ghost hb = commands.next_handle;
        spawn_tile(commands, map, room.ceiling, TileType::Ceiling, position);
        proof {
            lemma_room_step(q0, qb, commands.queue@, old_cell, *room);
            lemma_handles_step(
                cb,
                map.cell(p),
                p,
                *room,
                qb,
                commands.queue@,
                orientation_of(commands.queue@.last()),
                hb,
                position,
            );
        }
    }
    let ghost c1 = map.cell(p);
    if position.z == max.z {
        let ghost qb = commands.queue@;
        let ghost cb = map.cell(p);
        let ghost hb = commands.next_handle;
        spawn_tile(commands, map, room.walls, TileType::North, position);
        proof {
            lemma_room_step(q0, qb, commands.queue@, old_cell, *room);
            lemma_handles_step(
                cb,
                map.cell(p),
                p,
                *room,
                qb,
                commands.queue@,
                orientation_of(commands.queue@.last()),
                hb,
                position,
            );
        }
    }
    let ghost c2 = map.cell(p);
    if position.x == max.x {
        let ghost qb = commands.queue@;
        let ghost cb = map.cell(p);
        let ghost hb = commands.next_handle;
        spawn_tile(commands, map, room.walls, TileType::East, position);
        proof {
            lemma_room_step(q0, qb, commands.queue@, old_cell, *room);
            lemma_handles_step(
                cb,
                map.cell(p),
                p,
                *room,
                qb,
                commands.queue@,
                orientation_of(commands.queue@.last()),
                hb,
                position,
            );
        }
    }
    let ghost c3 = map.cell(p);
    if position.y == min.y {
        let ghost qb = commands.queue@;
        let ghost cb = map.cell(p);
        let ghost hb = commands.next_handle;
        spawn_tile(commands, map, room.floor, TileType::Floor, position);
        proof {
            lemma_room_step(q0, qb, commands.queue@, old_cell, *room);
            lemma_handles_step(
                cb,
                map.cell(p),
                p,
                *room,
                qb,
                commands.queue@,
                orientation_of(commands.queue@.last()),
                hb,
                position,
            );
        }
    }
    let ghost c4 = map.cell(p);
    if position.z == min.z {
        let ghost qb = commands.queue@;
        let ghost cb = map.cell(p);
        let ghost hb = commands.next_handle;
        spawn_tile(commands, map, room.walls, TileType::South, position);
        proof {
            lemma_room_step(q0, qb, commands.queue@, old_cell, *room);
            lemma_handles_step(
                cb,
                map.cell(p),
                p,
                *room,
                qb,
                commands.queue@,
                orientation_of(commands.queue@.last()),
                hb,
                position,
            );
        }
    }
    let ghost c5 = map.cell(p);
    if position.x == min.x {
        let ghost qb = commands.queue@;
        let ghost cb = map.cell(p);
        let ghost hb = commands.next_handle;
        spawn_tile(commands, map, room.walls, TileType::West, position);
        proof {
            lemma_room_step(q0, qb, commands.queue@, old_cell, *room);
            lemma_handles_step(
                cb,
                map.cell(p),
                p,
                *room,
                qb,
                commands.queue@,
                orientation_of(commands.queue@.last()),
                hb,
                position,
            );
        }
    }
    let ghost c6 = map.cell(p);
    assert forall|s: int| 0 <= s < 7 implies (#[trigger] c6[s].is_some() <==> room_slot(
        room.rect,
        p,
        s,
    )) by {
        assert(c0[s].is_none());
    }
}

/// Lays out a room: every voxel of its box is cleared, then gets the
/// ceiling, floor and wall surfaces of the faces it lies on.
pub fn spawn_room(commands: &mut Commands, map: &mut GridMap, room: &Rect3Room)
    requires
        old(map).wf(),
        rect_in_map(*old(map), room.rect),
    ensures
        final(map).wf(),
        final(map).dims() == old(map).dims(),
        forall|p: Pos| room.rect.contains(p) ==> room_cell(room.rect, p, #[trigger] final(map).cell(p)),
        forall|p: Pos| !room.rect.contains(p) ==> #[trigger] final(map).cell(p) == old(map).cell(p),
        room_commands_ok(old(commands).queue@, final(commands).queue@, *room),
        forall|p: Pos| #[trigger] room.rect.contains(p) ==> despawned(old(map).cell(p), final(commands).queue@),
        forall|p: Pos| #[trigger] room.rect.contains(p) ==> handles_spawned(final(map).cell(p), p, *room, final(commands).queue@),
{
    let ghost q0 = commands.queue@;
    proof {
        assert(q0.subrange(0, q0.len() as int) =~= q0);
    }
    let rect = room.rect;
    let min = rect.min();
    let max = rect.max();
    let ghost m0 = *map;
    let mut z: i32 = min.z;
    while z <= max.z
        invariant
            map.wf(),
            map.dims() == m0.dims(),
            rect == room.rect,
            rect_in_map(*map, rect),
            min@ == rect.lo(),
            max@ == rect.hi(),
            min.z <= z <= max.z + 1,
            forall|p: Pos|
                rect.contains(p) && raster_before(p, min.x as int, min.y as int, z as int)
                    ==> room_cell(rect, p, #[trigger] map.cell(p)),
            forall|p: Pos|
                !(rect.contains(p) && raster_before(p, min.x as int, min.y as int, z as int))
                    ==> #[trigger] map.cell(p) == m0.cell(p),
                room_commands_ok(q0, commands.queue@, *room),
                forall|p: Pos|
                    #[trigger] rect.contains(p) && raster_before(p, min.x as int, min.y as int, z as int) ==> despawned(m0.cell(p), commands.queue@) && handles_spawned(map.cell(p), p, *room, commands.queue@),
        decreases max.z as int + 1 - z as int,
    {
        let mut y: i32 = min.y;
        while y <= max.y
            invariant
                map.wf(),
                map.dims() == m0.dims(),
                rect == room.rect,
                rect_in_map(*map, rect),
                min@ == rect.lo(),
                max@ == rect.hi(),
                min.z <= z <= max.z,
                min.y <= y <= max.y + 1,
                forall|p: Pos|
                    rect.contains(p) && raster_before(p, min.x as int, y as int, z as int)
                        ==> room_cell(rect, p, #[trigger] map.cell(p)),
                forall|p: Pos|
                    !(rect.contains(p) && raster_before(p, min.x as int, y as int, z as int))
                        ==> #[trigger] map.cell(p) == m0.cell(p),
                room_commands_ok(q0, commands.queue@, *room),
                forall|p: Pos|
                    #[trigger] rect.contains(p) && raster_before(p, min.x as int, y as int, z as int) ==> despawned(m0.cell(p), commands.queue@) && handles_spawned(map.cell(p), p, *room, commands.queue@),
            decreases max.y as int + 1 - y as int,
        {
            let mut x: i32 = min.x;
            while x <= max.x
                invariant
                    map.wf(),
                    map.dims() == m0.dims(),
                    rect == room.rect,
                    rect_in_map(*map, rect),
                    min@ == rect.lo(),
                    max@ == rect.hi(),
                    min.z <= z <= max.z,
                    min.y <= y <= max.y,
                    min.x <= x <= max.x + 1,
                    forall|p: Pos|
                        rect.contains(p) && raster_before(p, x as int, y as int, z as int)
                            ==> room_cell(rect, p, #[trigger] map.cell(p)),
                    forall|p: Pos|
                        !(rect.contains(p) && raster_before(p, x as int, y as int, z as int))
                            ==> #[trigger] map.cell(p) == m0.cell(p),
                room_commands_ok(q0, commands.queue@, *room),
                forall|p: Pos|
                    #[trigger] rect.contains(p) && raster_before(p, x as int, y as int, z as int) ==> despawned(m0.cell(p), commands.queue@) && handles_spawned(map.cell(p), p, *room, commands.queue@),
                decreases max.x as int + 1 - x as int,
            {
                let position = IVec3::new(x, y, z);
                let ghost qb = commands.queue@;
                let ghost before = *map;
                spawn_room_voxel(commands, map, room, position);
                proof {
                    lemma_room_trans(q0, qb, commands.queue@, *room);
                    assert(before.cell(position@) == m0.cell(position@));
                    assert forall|p: Pos|
                        #[trigger] rect.contains(p) && raster_before(p, x + 1, y as int, z as int)
                            implies despawned(m0.cell(p), commands.queue@) && handles_spawned(map.cell(p), p, *room, commands.queue@) by {
                        if p != position@ {
                            assert(raster_before(p, x as int, y as int, z as int));
                            lemma_despawned_prefix(m0.cell(p), qb, commands.queue@);
                            assert(map.cell(p) == before.cell(p));
                            lemma_handles_prefix(before.cell(p), p, *room, qb, commands.queue@);
                        }
                    }
                }
                x += 1;
            }
            proof {
                assert forall|p: Pos|
                    #[trigger] rect.contains(p) && raster_before(p, min.x as int, y + 1, z as int)
                        implies despawned(m0.cell(p), commands.queue@) && handles_spawned(map.cell(p), p, *room, commands.queue@) by {
                    assert(raster_before(p, max.x + 1, y as int, z as int));
                }
            }
            y += 1;
        }
        proof {
            assert forall|p: Pos|
                #[trigger] rect.contains(p) && raster_before(p, min.x as int, min.y as int, z + 1)
                    implies despawned(m0.cell(p), commands.queue@) && handles_spawned(map.cell(p), p, *room, commands.queue@) by {
                assert(raster_before(p, min.x as int, max.y + 1, z as int));
            }
        }
        z += 1;
    }
    proof {
        assert forall|p: Pos| #[trigger] room.rect.contains(p) implies despawned(m0.cell(p), commands.queue@) && handles_spawned(map.cell(p), p, *room, commands.queue@) by {
            assert(raster_before(p, min.x as int, min.y as int, max.z + 1));
        }
    }
}

impl BranchGenerator {
    /// Lays out the rooms that have not been laid out yet, in order. Every
    /// voxel of a new room gets that room's cell; every other voxel keeps
    /// its cell; with no new room, nothing is queued.
    pub fn spawn_rooms(&mut self)
        requires
            old(self).wf(),
        ensures
            final(self).wf(),
            keeps_records(*old(self), *final(self)),
            final(self).rooms_spawned == final(self).rooms@.len(),
            final(self).exits_spawned == old(self).exits_spawned,
            final(self).entrances_spawned == old(self).entrances_spawned,
            forall|i: int, p: Pos|
                old(self).rooms_spawned <= i < final(self).rooms@.len()
                    && #[trigger] final(self).rooms@[i].room.rect.contains(p) ==> room_cell(
                    final(self).rooms@[i].room.rect,
                    p,
                    final(self).map.cell(p),
                ),
            forall|p: Pos|
                !in_rooms_from(old(self).rooms@, old(self).rooms_spawned as int, p) ==> #[trigger] final(self).map.cell(p) == old(self).map.cell(p),
            old(self).rooms_spawned == old(self).rooms@.len() ==> final(self).map == old(self).map
                && final(self).commands == old(self).commands,
            forall|i: int, p: Pos|
                old(self).rooms_spawned <= i < final(self).rooms@.len()
                    && #[trigger] final(self).rooms@[i].room.rect.contains(p) ==> despawned(
                    old(self).map.cell(p),
                    final(self).commands.queue@,
                ) && handles_spawned(
                    final(self).map.cell(p),
                    p,
                    final(self).rooms@[i].room,
                    final(self).commands.queue@,
                ),
            rooms_commands_ok(
                old(self).commands.queue@,
                final(self).commands.queue@,
                final(self).rooms@,
                old(self).rooms_spawned as int,
                final(self).rooms@.len() as int,
            ),
    {
        let ghost g0 = *self;
        let ghost s0 = self.rooms_spawned as int;
        proof {
            assert(g0.commands.queue@.subrange(0, g0.commands.queue@.len() as int) =~= g0.commands.queue@);
        }
        while self.rooms_spawned < self.rooms.len()
            invariant
                self.wf(),
                keeps_records(g0, *self),
                s0 <= self.rooms_spawned,
                s0 == g0.rooms_spawned,
                self.exits_spawned == g0.exits_spawned,
                self.entrances_spawned == g0.entrances_spawned,
                forall|i: int, p: Pos|
                    s0 <= i < self.rooms_spawned && #[trigger] self.rooms@[i].room.rect.contains(p)
                        ==> room_cell(self.rooms@[i].room.rect, p, self.map.cell(p)),
                forall|p: Pos|
                    !in_rooms_between(self.rooms@, s0, self.rooms_spawned as int, p)
                        ==> #[trigger] self.map.cell(p) == g0.map.cell(p),
                self.rooms_spawned == s0 ==> self.map == g0.map && self.commands == g0.commands,
                forall|i: int, p: Pos|
                    s0 <= i < self.rooms_spawned && #[trigger] self.rooms@[i].room.rect.contains(p)
                        ==> despawned(g0.map.cell(p), self.commands.queue@) && handles_spawned(
                        self.map.cell(p),
                        p,
                        self.rooms@[i].room,
                        self.commands.queue@,
                    ),
                rooms_commands_ok(
                    g0.commands.queue@,
                    self.commands.queue@,
                    self.rooms@,
                    s0,
                    self.rooms_spawned as int,
                ),
            decreases self.rooms@.len() - self.rooms_spawned,
        {
            let i = self.rooms_spawned;
            let ghost before = *self;
            let ghost qb = self.commands.queue@;
            assert(rect_in_map(self.map, self.rooms@[i as int].room.rect));
            spawn_room(&mut self.commands, &mut self.map, &self.rooms[i].room);
            self.rooms_spawned = i + 1;
            proof {
                lemma_wf_new_map(before, *self);
                let rects = self.rooms@;
                assert forall|j: int, p: Pos|
                    s0 <= j < self.rooms_spawned && #[trigger] self.rooms@[j].room.rect.contains(p)
                        implies room_cell(self.rooms@[j].room.rect, p, self.map.cell(p)) by {
                    if j < i {
                        assert(!rects[j].room.rect.meets(rects[i as int].room.rect));
                        lemma_contains_meets(rects[j].room.rect, rects[i as int].room.rect, p);
                        assert(self.map.cell(p) == before.map.cell(p));
                    }
                }
                let q1 = self.commands.queue@;
                let ri = rects[i as int].room;
                assert forall|j: int, p: Pos|
                    s0 <= j < self.rooms_spawned && #[trigger] self.rooms@[j].room.rect.contains(p)
                        implies despawned(g0.map.cell(p), q1) && handles_spawned(
                        self.map.cell(p),
                        p,
                        self.rooms@[j].room,
                        q1,
                    ) by {
                    if j < i {
                        assert(!rects[j].room.rect.meets(rects[i as int].room.rect));
                        lemma_contains_meets(rects[j].room.rect, rects[i as int].room.rect, p);
                        assert(self.map.cell(p) == before.map.cell(p));
                        lemma_despawned_prefix(g0.map.cell(p), qb, q1);
                        lemma_handles_prefix(before.map.cell(p), p, rects[j].room, qb, q1);
                    } else {
                        assert(!in_rooms_between(rects, s0, i as int, p)) by {
                            if in_rooms_between(rects, s0, i as int, p) {
                                let k = choose|k: int| s0 <= k < i && #[trigger] rects[k].room.rect.contains(p);
                                assert(!rects[k].room.rect.meets(rects[i as int].room.rect));
                                lemma_contains_meets(rects[k].room.rect, rects[i as int].room.rect, p);
                            }
                        }
                        assert(before.map.cell(p) == g0.map.cell(p));
                    }
                }
                assert forall|k: int| g0.commands.queue@.len() <= k < q1.len() implies rooms_command_ok(
                    #[trigger] q1[k],
                    rects,
                    s0,
                    i + 1,
                ) by {
                    if k < qb.len() {
                        assert(q1[k] == qb[k]);
                        if q1[k] is Spawn {
                            let f = choose|f: int| s0 <= f < i && #[trigger] room_command_ok(qb[k], rects[f].room);
                            assert(room_command_ok(q1[k], rects[f].room));
                        }
                    } else {
                        assert(room_command_ok(q1[k], ri));
                    }
                }
                assert(q1.subrange(0, g0.commands.queue@.len() as int) =~= qb.subrange(
                    0,
                    g0.commands.queue@.len() as int,
                ));
                assert forall|p: Pos|
                    !in_rooms_between(self.rooms@, s0, self.rooms_spawned as int, p) implies #[trigger] self.map.cell(p)
                        == g0.map.cell(p) by {
                    assert(!rects[i as int].room.rect.contains(p));
                    assert(!in_rooms_between(self.rooms@, s0, i as int, p));
                }
            }
        }
        proof {
            assert forall|p: Pos|
                !in_rooms_from(g0.rooms@, s0, p) implies #[trigger] self.map.cell(p) == g0.map.cell(p) by {
                if in_rooms_between(self.rooms@, s0, self.rooms_spawned as int, p) {
                    let j = choose|j: int| s0 <= j < self.rooms_spawned as int && #[trigger] self.rooms@[j].room.rect.contains(p);
                    assert(g0.rooms@[j].room.rect.contains(p));
                }
            }
        }
    }

    /// Lays out the corridors that have not been laid out yet, in order.
    /// Each new corridor is laid out at every voxel that no later new corridor
    /// passes through; voxels off every new corridor keep their cells; with
    /// no new corridor, nothing is queued.
    #[verifier::rlimit(80)]
    pub fn spawn_exits(&mut self)
        requires
            old(self).wf(),
        ensures
            final(self).wf(),
            keeps_records(*old(self), *final(self)),
            final(self).exits_spawned == final(self).exits@.len(),
            final(self).rooms_spawned == old(self).rooms_spawned,
            final(self).entrances_spawned == old(self).entrances_spawned,
            forall|e: int|
                old(self).exits_spawned <= e < final(self).exits@.len() ==> exit_laid(
                    #[trigger] final(self).exits@[e].path@,
                    final(self).map,
                    final(self).exits@,
                    e + 1,
                    final(self).exits@.len() as int,
                    Set::empty(),
                ),
            forall|p: Pos|
                !on_exits_between(
                    old(self).exits@,
                    old(self).exits_spawned as int,
                    old(self).exits@.len() as int,
                    p,
                ) ==> #[trigger] final(self).map.cell(p) == old(self).map.cell(p),
            old(self).exits_spawned == old(self).exits@.len() ==> final(self).map == old(self).map
                && final(self).commands == old(self).commands,
            forall|e: int|
                old(self).exits_spawned <= e < final(self).exits@.len() ==> exit_walls_despawned(
                    #[trigger] final(self).exits@[e].path@,
                    old(self).map,
                    final(self).exits@,
                    old(self).exits_spawned as int,
                    e,
                    final(self).commands.queue@,
                ),
            forall|e: int|
                old(self).exits_spawned <= e < final(self).exits@.len() ==> exit_cells_exact(
                    #[trigger] final(self).exits@[e].path@,
                    old(self).map,
                    final(self).map,
                    final(self).exits@,
                    old(self).exits_spawned as int,
                    e,
                    final(self).exits@.len() as int,
                    final(self).commands.queue@,
                ),
            exits_commands_ok(
                old(self).commands.queue@,
                final(self).commands.queue@,
                final(self).exits@,
                old(self).exits_spawned as int,
                final(self).exits@.len() as int,
            ),
    {
        let ghost g0 = *self;
        let ghost s0 = self.exits_spawned as int;
        proof {
            assert(g0.commands.queue@.subrange(0, g0.commands.queue@.len() as int) =~= g0.commands.queue@);
        }
        while self.exits_spawned < self.exits.len()
            invariant
                self.wf(),
                keeps_records(g0, *self),
                s0 == g0.exits_spawned,
                s0 <= self.exits_spawned,
                self.rooms_spawned == g0.rooms_spawned,
                self.entrances_spawned == g0.entrances_spawned,
                forall|e: int|
                    s0 <= e < self.exits_spawned ==> exit_laid(
                        #[trigger] self.exits@[e].path@,
                        self.map,
                        self.exits@,
                        e + 1,
                        self.exits_spawned as int,
                        Set::empty(),
                    ),
                forall|p: Pos|
                    !on_exits_between(self.exits@, s0, self.exits_spawned as int, p)
                        ==> #[trigger] self.map.cell(p) == g0.map.cell(p),
                self.exits_spawned == s0 ==> self.map == g0.map && self.commands == g0.commands,
                g0.commands.queue@.is_prefix_of(self.commands.queue@),
                forall|e: int|
                    s0 <= e < self.exits_spawned ==> exit_walls_despawned(
                        #[trigger] self.exits@[e].path@,
                        g0.map,
                        self.exits@,
                        s0,
                        e,
                        self.commands.queue@,
                    ),
                forall|e: int|
                    s0 <= e < self.exits_spawned ==> exit_cells_exact(
                        #[trigger] self.exits@[e].path@,
                        g0.map,
                        self.map,
                        self.exits@,
                        s0,
                        e,
                        self.exits_spawned as int,
                        self.commands.queue@,
                    ),
                exits_commands_ok(
                    g0.commands.queue@,
                    self.commands.queue@,
                    self.exits@,
                    s0,
                    self.exits_spawned as int,
                ),
            decreases self.exits@.len() - self.exits_spawned,
        {
            let i = self.exits_spawned;
            let ghost before = *self;
            let ghost path = self.exits@[i as int].path@;
            let ghost qb = self.commands.queue@;
            assert(exit_ok(self.map, path));
            spawn_exit(&mut self.commands, &mut self.map, &self.exits[i]);
            self.exits_spawned = i + 1;
            proof {
                let q1 = self.commands.queue@;
                assert(q1.subrange(0, g0.commands.queue@.len() as int) =~= qb.subrange(
                    0,
                    g0.commands.queue@.len() as int,
                ));
                lemma_exits_walls_step(self.exits@, s0, i as int, before.map, g0.map, qb, q1);
                assert(!on_exits_between(self.exits@, i as int, i as int, path[0].position@));
                assert(!on_exits_between(self.exits@, i + 1, i + 1, path[0].position@));
                assert(!on_exits_between(self.exits@, i as int, i as int, path[path.len() - 1].position@));
                assert(!on_exits_between(self.exits@, i + 1, i + 1, path[path.len() - 1].position@));
                assert(exit_cells_exact(path, before.map, self.map, self.exits@, i as int, i as int, i + 1, q1));
                lemma_exits_exact_step(
                    self.exits@,
                    s0,
                    i as int,
                    g0.map,
                    before.map,
                    self.map,
                    g0.commands.queue@,
                    qb,
                    q1,
                );

                lemma_wf_new_map(before, *self);
                let exits = self.exits@;
                assert forall|e: int| s0 <= e < self.exits_spawned implies exit_laid(
                    #[trigger] self.exits@[e].path@,
                    self.map,
                    self.exits@,
                    e + 1,
                    self.exits_spawned as int,
                    Set::empty(),
                ) by {
                    if e < i {
                        lemma_exit_laid_step(exits[e].path@, before.map, self.map, exits, e + 1, i as int);
                    } else {
                        lemma_exit_laid_fresh(path, before.map, self.map, exits, i + 1);
                    }
                }
                assert forall|p: Pos|
                    !on_exits_between(self.exits@, s0, self.exits_spawned as int, p) implies #[trigger] self.map.cell(p)
                        == g0.map.cell(p) by {
                    assert(!on_exits_between(exits, s0, i as int, p)) by {
                        if on_exits_between(exits, s0, i as int, p) {
                            let e = choose|e: int| s0 <= e < i && #[trigger] among_first(exits[e].path@, p, exits[e].path@.len() as int);
                            assert(among_first(exits[e].path@, p, exits[e].path@.len() as int));
                        }
                    }
                    assert(!among_first(path, p, path.len() as int));
                }
            }
        }
        proof {
            assert forall|p: Pos|
                !on_exits_between(g0.exits@, s0, g0.exits@.len() as int, p) implies #[trigger] self.map.cell(p)
                    == g0.map.cell(p) by {
                assert(self.exits@ == g0.exits@);
            }
        }
    }

    /// Opens the wall of each entrance that has not been opened yet: its slot
    /// is empty afterwards, no empty slot gets filled, and voxels without a
    /// new entrance keep their cells; with no new entrance, nothing is queued.
    pub fn spawn_entrances(&mut self)
        requires
            old(self).wf(),
        ensures
            final(self).wf(),
            keeps_records(*old(self), *final(self)),
            final(self).entrances_spawned == final(self).entrances@.len(),
            final(self).rooms_spawned == old(self).rooms_spawned,
            final(self).exits_spawned == old(self).exits_spawned,
            forall|e: int|
                old(self).entrances_spawned <= e < final(self).entrances@.len() ==> final(self).map.cell(
                    (#[trigger] final(self).entrances@[e]).0.position@,
                )[slot_of(final(self).entrances@[e].0.orientation)] is None,
            only_opened(old(self).map, final(self).map),
            forall|p: Pos|
                !entrance_spots(old(self).entrances@, old(self).entrances_spawned as int).contains(p)
                    ==> #[trigger] final(self).map.cell(p) == old(self).map.cell(p),
            old(self).entrances_spawned == old(self).entrances@.len() ==> final(self).map == old(self).map
                && final(self).commands == old(self).commands,
            only_despawns_after(old(self).commands.queue@, final(self).commands.queue@),
    {
        let ghost g0 = *self;
        let ghost s0 = self.entrances_spawned as int;
        proof {
            assert(g0.commands.queue@.subrange(0, g0.commands.queue@.len() as int) =~= g0.commands.queue@);
        }
        while self.entrances_spawned < self.entrances.len()
            invariant
                self.wf(),
                keeps_records(g0, *self),
                s0 == g0.entrances_spawned,
                s0 <= self.entrances_spawned,
                self.rooms_spawned == g0.rooms_spawned,
                self.exits_spawned == g0.exits_spawned,
                forall|e: int|
                    s0 <= e < self.entrances_spawned ==> self.map.cell(
                        (#[trigger] self.entrances@[e]).0.position@,
                    )[slot_of(self.entrances@[e].0.orientation)] is None,
                only_opened(g0.map, self.map),
                forall|p: Pos|
                    !entrance_spots(self.entrances@.subrange(0, self.entrances_spawned as int), s0).contains(p)
                        ==> #[trigger] self.map.cell(p) == g0.map.cell(p),
                self.entrances_spawned == s0 ==> self.map == g0.map && self.commands == g0.commands,
                only_despawns_after(g0.commands.queue@, self.commands.queue@),
            decreases self.entrances@.len() - self.entrances_spawned,
        {
            let i = self.entrances_spawned;
            let ghost before = *self;
            let hole = self.entrances[i].0;
            assert(self.map.in_bounds(self.entrances@[i as int].0.position@));
            proof {
                self.map.lemma_cell_len(hole.position@);
            }
            let ghost qb = self.commands.queue@;
            clear_tile(&mut self.commands, &mut self.map, hole.orientation, hole.position);
            proof {
                let q1 = self.commands.queue@;
                assert(q1.subrange(0, g0.commands.queue@.len() as int) =~= qb.subrange(
                    0,
                    g0.commands.queue@.len() as int,
                ));
                assert forall|k: int| g0.commands.queue@.len() <= k < q1.len() implies (#[trigger] q1[k]) is Despawn by {
                    if k < qb.len() {
                        assert(q1[k] == qb[k]);
                    }
                }
            }
            self.entrances_spawned = i + 1;
            proof {
                lemma_wf_new_map(before, *self);
                let ents = self.entrances@;
                let q = hole.position@;
                assert forall|e: int| s0 <= e < self.entrances_spawned implies self.map.cell(
                    (#[trigger] self.entrances@[e]).0.position@,
                )[slot_of(self.entrances@[e].0.orientation)] is None by {
                    let pe = ents[e].0.position@;
                    if pe != q {
                        assert(self.map.cell(pe) == before.map.cell(pe));
                    } else {
                        before.map.lemma_cell_len(pe);
                    }
                }
                assert forall|p: Pos, t: int|
                    0 <= t < 7 && (#[trigger] g0.map.cell(p)[t]) is None implies (#[trigger] self.map.cell(p)[t]) is None by {
                    assert(before.map.cell(p)[t] is None);
                    if p == q {
                        before.map.lemma_cell_len(p);
                    }
                }
                assert forall|p: Pos|
                    !entrance_spots(self.entrances@.subrange(0, self.entrances_spawned as int), s0).contains(p)
                        implies #[trigger] self.map.cell(p) == g0.map.cell(p) by {
                    let sub = self.entrances@.subrange(0, self.entrances_spawned as int);
                    let sub0 = self.entrances@.subrange(0, i as int);
                    if entrance_spots(sub0, s0).contains(p) {
                        let e = choose|e: int| s0 <= e < sub0.len() && #[trigger] sub0[e].0.position@ == p;
                        assert(sub[e].0.position@ == p);
                    }
                    if p == q {
                        assert(sub[i as int].0.position@ == p);
                    }
                }
            }
        }
        proof {
            assert(self.entrances@.subrange(0, self.entrances_spawned as int) =~= g0.entrances@);
        }
    }

    /// Lays out everything new: rooms first, then corridors, then entrances.
    /// New rooms keep their cells off the new corridors and entrances; new
    /// corridors are laid out as `spawn_exits` states, their inner cells where
    /// no new entrance sits; new entrances are open; every other voxel keeps
    /// its cell; with nothing new, nothing is queued.
    pub fn spawn_geometry(&mut self)
        requires
            old(self).wf(),
        ensures
            final(self).wf(),
            keeps_records(*old(self), *final(self)),
            final(self).rooms_spawned == final(self).rooms@.len(),
            final(self).exits_spawned == final(self).exits@.len(),
            final(self).entrances_spawned == final(self).entrances@.len(),
            forall|i: int, p: Pos|
                old(self).rooms_spawned <= i < final(self).rooms@.len()
                    && #[trigger] final(self).rooms@[i].room.rect.contains(p)
                    && !on_exits_between(final(self).exits@, old(self).exits_spawned as int, final(self).exits@.len() as int, p)
                    && !entrance_spots(final(self).entrances@, old(self).entrances_spawned as int).contains(p)
                    ==> room_cell(final(self).rooms@[i].room.rect, p, final(self).map.cell(p)),
            forall|e: int|
                old(self).exits_spawned <= e < final(self).exits@.len() ==> exit_laid(
                    #[trigger] final(self).exits@[e].path@,
                    final(self).map,
                    final(self).exits@,
                    e + 1,
                    final(self).exits@.len() as int,
                    entrance_spots(final(self).entrances@, old(self).entrances_spawned as int),
                ),
            forall|e: int|
                old(self).entrances_spawned <= e < final(self).entrances@.len() ==> final(self).map.cell(
                    (#[trigger] final(self).entrances@[e]).0.position@,
                )[slot_of(final(self).entrances@[e].0.orientation)] is None,
            forall|p: Pos|
                !in_rooms_from(old(self).rooms@, old(self).rooms_spawned as int, p)
                    && !on_exits_between(old(self).exits@, old(self).exits_spawned as int, old(self).exits@.len() as int, p)
                    && !entrance_spots(old(self).entrances@, old(self).entrances_spawned as int).contains(p)
                    ==> #[trigger] final(self).map.cell(p) == old(self).map.cell(p),
            old(self).rooms_spawned == old(self).rooms@.len() && old(self).exits_spawned == old(self).exits@.len()
                && old(self).entrances_spawned == old(self).entrances@.len() ==> final(self).map == old(self).map
                && final(self).commands == old(self).commands,
            forall|i: int, p: Pos|
                old(self).rooms_spawned <= i < final(self).rooms@.len()
                    && #[trigger] final(self).rooms@[i].room.rect.contains(p) ==> despawned(
                    old(self).map.cell(p),
                    final(self).commands.queue@,
                ),
            forall|i: int, p: Pos|
                old(self).rooms_spawned <= i < final(self).rooms@.len()
                    && #[trigger] final(self).rooms@[i].room.rect.contains(p)
                    && !on_exits_between(final(self).exits@, old(self).exits_spawned as int, final(self).exits@.len() as int, p)
                    && !entrance_spots(final(self).entrances@, old(self).entrances_spawned as int).contains(p)
                    ==> handles_spawned(final(self).map.cell(p), p, final(self).rooms@[i].room, final(self).commands.queue@),
            forall|e: int|
                old(self).exits_spawned <= e < final(self).exits@.len() ==> exit_cells_exact_except(
                    #[trigger] final(self).exits@[e].path@,
                    old(self).map,
                    final(self).map,
                    final(self).exits@,
                    old(self).exits_spawned as int,
                    e,
                    final(self).exits@.len() as int,
                    final(self).commands.queue@,
                    new_room_or_entrance(*old(self)),
                ),
            geometry_commands_ok(*old(self), final(self).commands.queue@),
    {
        let ghost g0 = *self;
        self.spawn_rooms();
        let ghost g1 = *self;
        self.spawn_exits();
        let ghost g2 = *self;
        self.spawn_entrances();
        proof {
            let holes = entrance_spots(g0.entrances@, g0.entrances_spawned as int);
            assert forall|e: int| g0.exits_spawned <= e < self.exits@.len() implies exit_laid(
                #[trigger] self.exits@[e].path@,
                self.map,
                self.exits@,
                e + 1,
                self.exits@.len() as int,
                holes,
            ) by {
                assert(exit_laid(g2.exits@[e].path@, g2.map, g2.exits@, e + 1, g2.exits@.len() as int, Set::empty()));
                lemma_exit_laid_holes(self.exits@[e].path@, g2.map, self.map, self.exits@, e + 1, self.exits@.len() as int, holes);
            }
            assert forall|i: int, p: Pos|
                g0.rooms_spawned <= i < self.rooms@.len()
                    && #[trigger] self.rooms@[i].room.rect.contains(p)
                    && !on_exits_between(self.exits@, g0.exits_spawned as int, self.exits@.len() as int, p)
                    && !holes.contains(p)
                    implies room_cell(self.rooms@[i].room.rect, p, self.map.cell(p)) by {
                assert(g1.rooms@[i].room.rect.contains(p));
                assert(g2.map.cell(p) == g1.map.cell(p));
            }
            let q1 = g1.commands.queue@;
            let q2 = g2.commands.queue@;
            let q3 = self.commands.queue@;
            lemma_prefix_trans(q1, q2, q3);
            assert forall|i: int, p: Pos|
                g0.rooms_spawned <= i < self.rooms@.len()
                    && #[trigger] self.rooms@[i].room.rect.contains(p) implies despawned(g0.map.cell(p), q3) by {
                assert(g1.rooms@[i].room.rect.contains(p));
                lemma_despawned_prefix(g0.map.cell(p), q1, q3);
            }
            assert forall|i: int, p: Pos|
                g0.rooms_spawned <= i < self.rooms@.len()
                    && #[trigger] self.rooms@[i].room.rect.contains(p)
                    && !on_exits_between(self.exits@, g0.exits_spawned as int, self.exits@.len() as int, p)
                    && !holes.contains(p)
                    implies handles_spawned(self.map.cell(p), p, self.rooms@[i].room, q3) by {
                assert(g1.rooms@[i].room.rect.contains(p));
                assert(g2.map.cell(p) == g1.map.cell(p));
                lemma_handles_prefix(g1.map.cell(p), p, g1.rooms@[i].room, q1, q3);
            }
            let skip = new_room_or_entrance(g0);
            assert forall|e: int| g0.exits_spawned <= e < self.exits@.len() implies exit_cells_exact_except(
                #[trigger] self.exits@[e].path@,
                g0.map,
                self.map,
                self.exits@,
                g0.exits_spawned as int,
                e,
                self.exits@.len() as int,
                q3,
                skip,
            ) by {
                assert(exit_cells_exact(g2.exits@[e].path@, g1.map, g2.map, g2.exits@, g0.exits_spawned as int, e, g2.exits@.len() as int, q2));
                lemma_exact_except(self.exits@[e].path@, g0.map, g1.map, g2.map, self.map, self.exits@, g0.exits_spawned as int, e, self.exits@.len() as int, q2, q3, skip);
            }
            assert forall|k: int| q1.len() <= k < q3.len() implies geometry_command_ok(#[trigger] q3[k], g0) by {
                if k < q2.len() {
                    assert(q3[k] == q2[k]);
                    if q2[k] is Spawn {
                        let f = choose|f: int| g0.exits_spawned <= f < self.exits@.len() && #[trigger] exit_command_ok(q2[k], self.exits@[f]);
                        assert(exit_command_ok(q3[k], g0.exits@[f]));
                    }
                }
            }
            assert forall|k: int| g0.commands.queue@.len() <= k < q3.len() implies geometry_command_ok(#[trigger] q3[k], g0) by {
                if k < q1.len() {
                    lemma_prefix_index(q1, q3, k);
                    if q1[k] is Spawn {
                        let f = choose|f: int| g0.rooms_spawned <= f < self.rooms@.len() && #[trigger] room_command_ok(q1[k], self.rooms@[f].room);
                        assert(room_command_ok(q3[k], g0.rooms@[f].room));
                    }
                }
            }
            lemma_prefix_trans(g0.commands.queue@, q1, q3);
        }
    }
}

/// The voxels of the entrances from index `from` on.
pub open spec fn entrance_spots(entrances: Seq<HoleEntrance>, from: int) -> Set<Pos> {
    Set::new(|p: Pos| exists|e: int| from <= e < entrances.len() && #[trigger] entrances[e].0.position@ == p)
}

/// The second map differs from the first only by slots emptied.
pub open spec fn only_opened(m0: GridMap, m1: GridMap) -> bool {
    forall|p: Pos, t: int|
        0 <= t < 7 && (#[trigger] m0.cell(p)[t]) is None ==> (#[trigger] m1.cell(p)[t]) is None
}

proof fn lemma_exit_laid_holes(
    path: Seq<IVec3Tile>,
    m0: GridMap,
    m1: GridMap,
    exits: Seq<PathExit>,
    after: int,
    upto: int,
    holes: Set<Pos>,
)
    requires
        exit_laid(path, m0, exits, after, upto, Set::empty()),
        only_opened(m0, m1),
        forall|p: Pos| !holes.contains(p) ==> #[trigger] m1.cell(p) == m0.cell(p),
    ensures
        exit_laid(path, m1, exits, after, upto, holes),
{
    let n = path.len() as int;
    if n >= 1 {
        let s0 = slot_of(path[0].orientation);
        assert(m0.cell(path[0].position@)[s0] is None ==> m1.cell(path[0].position@)[s0] is None);
    }
    if n >= 2 {
        let s1 = slot_of(opposite(path[n - 1].orientation));
        assert(0 <= s1 < 7);
        assert(m0.cell(path[n - 1].position@)[s1] is None ==> m1.cell(path[n - 1].position@)[s1] is None);
    }
}

/// Some room from index `from` on holds the voxel.
pub open spec fn in_rooms_from(rooms: Seq<RoomEntry>, from: int, p: Pos) -> bool {
    exists|i: int| from <= i < rooms.len() && #[trigger] rooms[i].room.rect.contains(p)
}

/// Some room with index in `[from, upto)` holds the voxel.
pub open spec fn in_rooms_between(rooms: Seq<RoomEntry>, from: int, upto: int, p: Pos) -> bool {
    exists|i: int| from <= i < upto && #[trigger] rooms[i].room.rect.contains(p)
}

/// Two boxes that hold a common voxel meet.
pub proof fn lemma_contains_meets(a: Rect3, b: Rect3, p: Pos)
    ensures
        a.contains(p) && b.contains(p) ==> a.meets(b),
{
}

/// Some corridor with index in `[from, upto)` passes through the voxel.
pub open spec fn on_exits_between(exits: Seq<PathExit>, from: int, upto: int, p: Pos) -> bool {
    exists|e: int|
        from <= e < upto && #[trigger] among_first(exits[e].path@, p, exits[e].path@.len() as int)
}

/// The corridor `path` is laid out in `map` at every voxel that no corridor
/// with index in `[after, upto)` passes through: the start's wall is open
/// unless the path comes back to it, inner points the path does not come
/// back to are inner corridor cells (unless an entrance in `holes` sits
/// there), and the last point's back wall is open.
pub open spec fn exit_laid(
    path: Seq<IVec3Tile>,
    map: GridMap,
    exits: Seq<PathExit>,
    after: int,
    upto: int,
    holes: Set<Pos>,
) -> bool {
    let n = path.len() as int;
    &&& !visited_again(path, 0, n) && !on_exits_between(exits, after, upto, path[0].position@)
        ==> map.cell(path[0].position@)[slot_of(path[0].orientation)] is None
    &&& forall|k: int|
        0 < k < n - 1 && !visited_again(path, k, n) && !on_exits_between(exits, after, upto, path[k].position@)
            && !holes.contains(path[k].position@) ==> corridor_cell(
            side_walls(path[k].orientation, path[k + 1].orientation),
            #[trigger] map.cell(path[k].position@),
        )
    &&& n >= 2 && !on_exits_between(exits, after, upto, path[n - 1].position@) ==> map.cell(
        path[n - 1].position@,
    )[slot_of(opposite(path[n - 1].orientation))] is None
}

proof fn lemma_exit_laid_step(
    path: Seq<IVec3Tile>,
    m0: GridMap,
    m1: GridMap,
    exits: Seq<PathExit>,
    after: int,
    k: int,
)
    requires
        exit_laid(path, m0, exits, after, k, Set::empty()),
        after <= k < exits.len(),
        forall|p: Pos|
            !among_first(exits[k].path@, p, exits[k].path@.len() as int) ==> #[trigger] m1.cell(p)
                == m0.cell(p),
    ensures
        exit_laid(path, m1, exits, after, k + 1, Set::empty()),
{
    assert forall|p: Pos| !on_exits_between(exits, after, k + 1, p) implies !on_exits_between(exits, after, k, p)
        && m1.cell(p) == m0.cell(p) by {
        if on_exits_between(exits, after, k, p) {
            let e = choose|e: int| after <= e < k && #[trigger] among_first(exits[e].path@, p, exits[e].path@.len() as int);
            assert(among_first(exits[e].path@, p, exits[e].path@.len() as int));
        }
        if among_first(exits[k].path@, p, exits[k].path@.len() as int) {
            assert(on_exits_between(exits, after, k + 1, p));
        }
    }
}

proof fn lemma_exit_laid_fresh(path: Seq<IVec3Tile>, m0: GridMap, m1: GridMap, exits: Seq<PathExit>, k: int)
    requires
        m0.wf(),
        path.len() >= 1,
        path_in_map(m0, path),
        !visited_again(path, 0, path.len() as int) ==> m1.cell(path[0].position@) == m0.cell(
            path[0].position@,
        ).update(slot_of(path[0].orientation), None),
        forall|j: int|
            0 < j < path.len() - 1 && !visited_again(path, j, path.len() as int) ==> corridor_cell(
                side_walls(path[j].orientation, path[j + 1].orientation),
                #[trigger] m1.cell(path[j].position@),
            ),
        path.len() >= 2 ==> m1.cell(path[path.len() - 1].position@)[slot_of(
            opposite(path[path.len() - 1].orientation),
        )] is None,
    ensures
        exit_laid(path, m1, exits, k, k, Set::empty()),
{
    m0.lemma_cell_len(path[0].position@);
}

/// A later point of the path, before index `upto`, sits where point `k` does.
pub open spec fn visited_again(path: Seq<IVec3Tile>, k: int, upto: int) -> bool {
    exists|j: int| k < j < upto && #[trigger] path[j].position@ == path[k].position@
}

/// One of the first `upto` points of the path sits at `p`.
pub open spec fn among_first(path: Seq<IVec3Tile>, p: Pos, upto: int) -> bool {
    exists|j: int| 0 <= j < upto && #[trigger] path[j].position@ == p
}

/// Lays out one point of a corridor: the first point opens the wall it
/// faces, the last point opens the wall behind it, and an inner point is
/// cleared and gets ceiling, floor and its two side walls.
#[verifier::rlimit(80)]
fn spawn_exit_point(commands: &mut Commands, map: &mut GridMap, exit: &PathExit, i: usize)
    requires
        old(map).wf(),
        path_in_map(*old(map), exit.path@),
        chained(path_view(exit.path@)),
        is_cardinal(exit.path@[0].orientation),
        i < exit.path@.len(),
    ensures
        final(map).wf(),
        final(map).same_except(*old(map), exit.path@[i as int].position@),
        i == 0 ==> final(map).cell(exit.path@[0].position@) == old(map).cell(
            exit.path@[0].position@,
        ).update(slot_of(exit.path@[0].orientation), None),
        0 < i && i + 1 == exit.path@.len() ==> final(map).cell(
            exit.path@[i as int].position@,
        )[slot_of(opposite(exit.path@[i as int].orientation))] is None,
        0 < i && i + 1 < exit.path@.len() ==> corridor_cell(
            side_walls(exit.path@[i as int].orientation, exit.path@[i + 1].orientation),
            final(map).cell(exit.path@[i as int].position@),
        ),
        exit_commands_ok(old(commands).queue@, final(commands).queue@, *exit),
        opened_wall_despawned(
            old(map).cell(exit.path@[i as int].position@),
            opened_slot(exit.path@, i as int),
            final(commands).queue@,
        ),
        0 < i && i + 1 == exit.path@.len() ==> final(map).cell(exit.path@[i as int].position@)
            == old(map).cell(exit.path@[i as int].position@).update(
            slot_of(opposite(exit.path@[i as int].orientation)),
            None,
        ),
        0 < i && i + 1 < exit.path@.len() ==> despawned(
            old(map).cell(exit.path@[i as int].position@),
            final(commands).queue@,
        ),
{
    let n = exit.path.len();
    let p = exit.path[i];
    let ghost q0 = commands.queue@;
    assert(map.in_bounds(exit.path@[i as int].position@));
    proof {
        assert(q0.subrange(0, q0.len() as int) =~= q0);
        map.lemma_cell_len(p.position@);
    }
    if i == 0 || i == n - 1 {
        let t = if i == 0 {
            p.orientation
        } else {
            p.orientation.opposite()
        };
        clear_tile(commands, map, t, p.position);
        proof {
            assert(commands.queue@.subrange(0, q0.len() as int) =~= q0);
            if commands.queue@.len() > q0.len() {
                assert(commands.queue@[q0.len() as int] is Despawn);
            }
        }
    } else {
        let next = exit.path[i + 1].orientation;
        let ghost pv = path_view(exit.path@);
        assert(pv[i as int] == exit.path@[i as int]@);
        assert(pv[i + 1] == exit.path@[i + 1]@);
        assert(pv[(i - 1) + 1].0 == crate::geometry::pos_add(
            pv[i - 1].0,
            crate::geometry::step_of(pv[(i - 1) + 1].1),
        ));
        assert(pv[i as int + 1].0 == crate::geometry::pos_add(
            pv[i as int].0,
            crate::geometry::step_of(pv[i as int + 1].1),
        ));
        assert(is_cardinal(p.orientation));
        assert(turn_ok(p.orientation, next));
        let ghost q = p.position@;
        proof {
            lemma_despawns_only(map.cell(q), 7);
        }
        clear_position(commands, map, p.position);
        let ghost qc = commands.queue@;
        proof {
            lemma_cleared_covers(old(map).cell(q), q0);
            let d = despawns(old(map).cell(q), 7);
            assert forall|k: int| q0.len() <= k < commands.queue@.len() implies exit_command_ok(
                #[trigger] commands.queue@[k],
                *exit,
            ) by {
                assert(commands.queue@[k] == d[k - q0.len()]);
            }
            assert(commands.queue@.subrange(0, q0.len() as int) =~= q0);
            assert(exit.path@[i as int].position@ == q);
        }
        let ghost c0 = map.cell(q);
        let (w1, w2) = if next == p.orientation {
            (p.orientation.rotate90(true), p.orientation.rotate90(false))
        } else if next == p.orientation.rotate90(true) {
            (p.orientation, p.orientation.rotate90(false))
        } else {
            (p.orientation, p.orientation.rotate90(true))
        };
        let ghost qb = commands.queue@;
        spawn_tile(commands, map, exit.walls, w1, p.position);
        proof {
            lemma_exit_cmd_step(q0, qb, commands.queue@, *exit);
        }
        let ghost qb = commands.queue@;
        spawn_tile(commands, map, exit.walls, w2, p.position);
        proof {
            lemma_exit_cmd_step(q0, qb, commands.queue@, *exit);
        }
        let ghost qb = commands.queue@;
        spawn_tile(commands, map, exit.walls, TileType::Ceiling, p.position);
        proof {
            lemma_exit_cmd_step(q0, qb, commands.queue@, *exit);
        }
        let ghost qb = commands.queue@;
        spawn_tile(commands, map, exit.walls, TileType::Floor, p.position);
        proof {
            lemma_exit_cmd_step(q0, qb, commands.queue@, *exit);
            assert(commands.queue@.subrange(0, qc.len() as int) =~= qc);
            lemma_despawned_prefix(old(map).cell(q), qc, commands.queue@);
        }
        let ghost c = map.cell(q);
        assert forall|s: int| 0 <= s < 7 implies (#[trigger] c[s].is_some() <==> (s == 1 || s == 2
            || s == slot_of(w1) || s == slot_of(w2))) by {
            assert(c0[s].is_none());
        }
    }
}

/// Lays out a corridor point by point. Voxels off the path keep their
/// cells; the start opens its wall unless the path comes back to it; the last
/// point has the wall behind it open; every inner point that the path does
/// not come back to is an inner corridor cell.
#[verifier::rlimit(60)]
pub fn spawn_exit(commands: &mut Commands, map: &mut GridMap, exit: &PathExit)
    requires
        old(map).wf(),
        exit.path@.len() >= 1,
        path_in_map(*old(map), exit.path@),
        chained(path_view(exit.path@)),
        is_cardinal(exit.path@[0].orientation),
    ensures
        final(map).wf(),
        final(map).dims() == old(map).dims(),
        forall|p: Pos|
            !among_first(exit.path@, p, exit.path@.len() as int) ==> #[trigger] final(map).cell(p)
                == old(map).cell(p),
        !visited_again(exit.path@, 0, exit.path@.len() as int) ==> final(map).cell(
            exit.path@[0].position@,
        ) == old(map).cell(exit.path@[0].position@).update(
            slot_of(exit.path@[0].orientation),
            None,
        ),
        forall|k: int|
            0 < k < exit.path@.len() - 1 && !visited_again(exit.path@, k, exit.path@.len() as int)
                ==> corridor_cell(
                side_walls(exit.path@[k].orientation, exit.path@[k + 1].orientation),
                #[trigger] final(map).cell(exit.path@[k].position@),
            ),
        exit.path@.len() >= 2 ==> final(map).cell(
            exit.path@[exit.path@.len() - 1].position@,
        )[slot_of(opposite(exit.path@[exit.path@.len() - 1].orientation))] is None,
        exit_commands_ok(old(commands).queue@, final(commands).queue@, *exit),
        opened_wall_despawned(
            old(map).cell(exit.path@[0].position@),
            opened_slot(exit.path@, 0),
            final(commands).queue@,
        ),
        !among_first(
            exit.path@,
            exit.path@[exit.path@.len() - 1].position@,
            exit.path@.len() - 1,
        ) ==> opened_wall_despawned(
            old(map).cell(exit.path@[exit.path@.len() - 1].position@),
            opened_slot(exit.path@, exit.path@.len() - 1),
            final(commands).queue@,
        ),
        exit.path@.len() >= 2 && !among_first(
            exit.path@,
            exit.path@[exit.path@.len() - 1].position@,
            exit.path@.len() - 1,
        ) ==> final(map).cell(exit.path@[exit.path@.len() - 1].position@) == old(map).cell(
            exit.path@[exit.path@.len() - 1].position@,
        ).update(slot_of(opposite(exit.path@[exit.path@.len() - 1].orientation)), None),
        forall|k: int|
            0 < k < exit.path@.len() - 1 && !among_first(exit.path@, exit.path@[k].position@, k)
                ==> despawned(#[trigger] old(map).cell(exit.path@[k].position@), final(commands).queue@),
{
    let n = exit.path.len();
    let ghost m0 = *map;
    let ghost path = exit.path@;
    let ghost q0 = commands.queue@;
    proof {
        assert(q0.subrange(0, q0.len() as int) =~= q0);
    }
    let mut i: usize = 0;
    while i < n
        invariant
            n == path.len(),
            path == exit.path@,
            map.wf(),
            map.dims() == m0.dims(),
            path_in_map(*map, path),
            chained(path_view(path)),
            is_cardinal(path[0].orientation),
            i <= n,
            forall|p: Pos| !among_first(path, p, i as int) ==> #[trigger] map.cell(p) == m0.cell(p),
            0 < i && !visited_again(path, 0, i as int) ==> map.cell(path[0].position@)
                == m0.cell(path[0].position@).update(slot_of(path[0].orientation), None),
            forall|k: int|
                0 < k < i && k < n - 1 && !visited_again(path, k, i as int) ==> corridor_cell(
                    side_walls(path[k].orientation, path[k + 1].orientation),
                    #[trigger] map.cell(path[k].position@),
                ),
            i == n && n >= 2 ==> map.cell(path[n - 1].position@)[slot_of(
                opposite(path[n - 1].orientation),
            )] is None,
            exit_commands_ok(q0, commands.queue@, *exit),
            0 < i ==> opened_wall_despawned(m0.cell(path[0].position@), opened_slot(path, 0), commands.queue@),
            i == n && !among_first(path, path[n - 1].position@, n - 1) ==> opened_wall_despawned(
                m0.cell(path[n - 1].position@),
                opened_slot(path, n - 1),
                commands.queue@,
            ),
            i == n && n >= 2 && !among_first(path, path[n - 1].position@, n - 1) ==> map.cell(
                path[n - 1].position@,
            ) == m0.cell(path[n - 1].position@).update(slot_of(opposite(path[n - 1].orientation)), None),
            forall|k: int|
                0 < k < i && k < n - 1 && !among_first(path, path[k].position@, k) ==> despawned(
                    #[trigger] m0.cell(path[k].position@),
                    commands.queue@,
                ),
        decreases n - i,
    {
        let ghost before = *map;
        let ghost qb = commands.queue@;
        let ghost q = path[i as int].position@;
        spawn_exit_point(commands, map, exit, i);
        proof {
            lemma_exit_cmd_trans(q0, qb, commands.queue@, *exit);
            if !among_first(path, q, i as int) {
                assert(before.cell(q) == m0.cell(q));
            }
            assert forall|k: int|
                0 < k < i + 1 && k < n - 1 && !among_first(path, path[k].position@, k) implies despawned(
                    #[trigger] m0.cell(path[k].position@),
                    commands.queue@,
                ) by {
                if k < i {
                    lemma_despawned_prefix(m0.cell(path[k].position@), qb, commands.queue@);
                }
            }
            if i > 0 {
                lemma_opened_prefix(m0.cell(path[0].position@), opened_slot(path, 0), qb, commands.queue@);
            } else {
                assert(before.cell(q) == m0.cell(q)) by {
                    assert(!among_first(path, q, 0));
                }
            }
            if i == n - 1 && !among_first(path, q, n - 1) {
                assert(before.cell(q) == m0.cell(q));
            }
        }
        assert forall|p: Pos| !among_first(path, p, i + 1) implies #[trigger] map.cell(p) == m0.cell(p) by {
            if among_first(path, p, i as int) {
                let j = choose|j: int| 0 <= j < i && #[trigger] path[j].position@ == p;
                assert(path[j].position@ == p);
            }
            assert(p != q);
        }
        proof {
            if i > 0 {
                if !visited_again(path, 0, i + 1) {
                    assert(!visited_again(path, 0, i as int)) by {
                        if visited_again(path, 0, i as int) {
                            let j = choose|j: int|
                                0 < j < i && #[trigger] path[j].position@ == path[0].position@;
                            assert(path[j].position@ == path[0].position@);
                        }
                    }
                    assert(q != path[0].position@);
                }
            } else {
                assert(!among_first(path, q, 0));
            }
        }
        assert forall|k: int|
            0 < k < i + 1 && k < n - 1 && !visited_again(path, k, i + 1) implies corridor_cell(
            side_walls(path[k].orientation, path[k + 1].orientation),
            #[trigger] map.cell(path[k].position@),
        ) by {
            if k < i {
                assert(!visited_again(path, k, i as int)) by {
                    if visited_again(path, k, i as int) {
                        let j = choose|j: int| k < j < i && #[trigger] path[j].position@ == path[k].position@;
                        assert(path[j].position@ == path[k].position@);
                    }
                }
                assert(path[i as int].position@ != path[k].position@);
                assert(map.cell(path[k].position@) == before.cell(path[k].position@));
            }
        }
        i += 1;
    }
}

} // verus!
