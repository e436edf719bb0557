use vstd::prelude::*;

use crate::corridor::Leg;
use crate::geometry::{IVec3, IVec3Tile, Pos, Rect3, TileType, is_cardinal, slot_of, opposite, step_of, pos_add};
use crate::grid::{Cell, GridMap};
use crate::random::{pick, random_bool, random_range};
use crate::records::{GenConfig, MAX_SPAN};

verus! {

/// A voxel on one of the four vertical faces of the box, at floor level.
pub open spec fn on_wall_base(rect: Rect3, p: Pos) -> bool {
    &&& rect.contains(p)
    &&& p.1 == rect.lo().1
    &&& (p.0 == rect.lo().0 || p.0 == rect.hi().0 || p.2 == rect.lo().2 || p.2 == rect.hi().2)
}

/// Every voxel of the box lies inside the map.
pub open spec fn rect_in_map(map: GridMap, rect: Rect3) -> bool {
    &&& 0 <= rect.lo().0 && rect.hi().0 < map.dims().0
    &&& 0 <= rect.lo().1 && rect.hi().1 < map.dims().1
    &&& 0 <= rect.lo().2 && rect.hi().2 < map.dims().2
}

/// Whether `p` is among `points`.
pub fn contains_point(points: &Vec<IVec3>, p: IVec3) -> (r: bool)
    ensures
        r == points@.contains(p),
{
    let mut i: usize = 0;
    while i < points.len()
        invariant
            i <= points@.len(),
            forall|j: int| 0 <= j < i ==> #[trigger] points@[j] != p,
        decreases points@.len() - i,
    {
        if points[i] == p {
            assert(points@[i as int] == p);
            return true;
        }
        i += 1;
    }
    false
}

/// The floor-level voxels of the box's four side faces that are not in
/// `exclude`, each listed once, face by face.
pub fn surface_wall_points(rect: Rect3, exclude: &Vec<IVec3>) -> (r: Vec<IVec3>)
    requires
        rect.hi().0 < i32::MAX,
        rect.hi().2 < i32::MAX,
    ensures
        forall|p: IVec3| #[trigger]
            r@.contains(p) <==> on_wall_base(rect, p@) && !exclude@.contains(p),
        r@.no_duplicates(),
{
    let min = rect.min();
    let max = rect.max();
    let mut points: Vec<IVec3> = Vec::new();
    let mut x: i32 = min.x;
    while x <= max.x
        invariant
            min@ == rect.lo(),
            max@ == rect.hi(),
            max.x < i32::MAX,
            min.x <= x <= max.x + 1,
            points@.no_duplicates(),
            forall|p: IVec3| #[trigger]
                points@.contains(p) <==> (on_wall_base(rect, p@) && !exclude@.contains(p) && (
                p.z == min.z || p.z == max.z) && p.x < x),
        decreases max.x as int + 1 - x as int,
    {
        let a = IVec3::new(x, min.y, min.z);
        let b = IVec3::new(x, min.y, max.z);
        let ghost before = points@;
        if !contains_point(exclude, a) && !contains_point(&points, a) {
            points.push(a);
        }
        let ghost mid = points@;
        if !contains_point(exclude, b) && !contains_point(&points, b) {
            points.push(b);
        }
        assert forall|p: IVec3| #[trigger]
            points@.contains(p) <==> (on_wall_base(rect, p@) && !exclude@.contains(p) && (p.z
                == min.z || p.z == max.z) && p.x < x + 1) by {
            if points@.contains(p) && !before.contains(p) {
                let k = choose|k: int| 0 <= k < points@.len() && points@[k] == p;
                assert(k >= before.len());
            }
            if p == a && !exclude@.contains(a) && !before.contains(a) {
                assert(mid[mid.len() - 1] == a);
                assert(points@[mid.len() - 1] == a);
            }
            if p == b && !exclude@.contains(b) && !mid.contains(b) {
                assert(points@[points@.len() - 1] == b);
            }
            if mid.contains(p) {
                let k = choose|k: int| 0 <= k < mid.len() && mid[k] == p;
                assert(points@[k] == p);
            }
            if before.contains(p) {
                let k = choose|k: int| 0 <= k < before.len() && before[k] == p;
                assert(points@[k] == p);
            }
        }
        x += 1;
    }
    let mut z: i32 = min.z;
    while z <= max.z
        invariant
            min@ == rect.lo(),
            max@ == rect.hi(),
            max.z < i32::MAX,
            min.z <= z <= max.z + 1,
            points@.no_duplicates(),
            forall|p: IVec3| #[trigger]
                points@.contains(p) <==> (on_wall_base(rect, p@) && !exclude@.contains(p) && (
                p.z == min.z || p.z == max.z || ((p.x == min.x || p.x == max.x) && p.z < z))),
        decreases max.z as int + 1 - z as int,
    {
        let a = IVec3::new(min.x, min.y, z);
        let b = IVec3::new(max.x, min.y, z);
        let ghost before = points@;
        if !contains_point(exclude, a) && !contains_point(&points, a) {
            points.push(a);
        }
        let ghost mid = points@;
        if !contains_point(exclude, b) && !contains_point(&points, b) {
            points.push(b);
        }
        assert forall|p: IVec3| #[trigger]
            points@.contains(p) <==> (on_wall_base(rect, p@) && !exclude@.contains(p) && (p.z
                == min.z || p.z == max.z || ((p.x == min.x || p.x == max.x) && p.z < z + 1))) by {
            if points@.contains(p) && !before.contains(p) {
                let k = choose|k: int| 0 <= k < points@.len() && points@[k] == p;
                assert(k >= before.len());
            }
            if p == a && !exclude@.contains(a) && !before.contains(a) {
                assert(mid[mid.len() - 1] == a);
                assert(points@[mid.len() - 1] == a);
            }
            if p == b && !exclude@.contains(b) && !mid.contains(b) {
                assert(points@[points@.len() - 1] == b);
            }
            if mid.contains(p) {
                let k = choose|k: int| 0 <= k < mid.len() && mid[k] == p;
                assert(points@[k] == p);
            }
            if before.contains(p) {
                let k = choose|k: int| 0 <= k < before.len() && before[k] == p;
                assert(points@[k] == p);
            }
        }
        z += 1;
    }
    points
}

/// The wall orientations whose slot holds a surface in the cell.
pub fn open_walls(cell: &Cell) -> (r: Vec<TileType>)
    ensures
        forall|t: TileType| #[trigger]
            r@.contains(t) <==> is_cardinal(t) && cell@[slot_of(t)].is_some(),
{
    let mut walls: Vec<TileType> = Vec::new();
    if cell[3].is_some() {
        walls.push(TileType::North);
    }
    let ghost w1 = walls@;
    if cell[4].is_some() {
        walls.push(TileType::East);
    }
    let ghost w2 = walls@;
    if cell[5].is_some() {
        walls.push(TileType::South);
    }
    let ghost w3 = walls@;
    if cell[6].is_some() {
        walls.push(TileType::West);
    }
    assert forall|t: TileType| #[trigger]
        walls@.contains(t) <==> is_cardinal(t) && cell@[slot_of(t)].is_some() by {
        if walls@.contains(t) {
            let k = choose|k: int| 0 <= k < walls@.len() && walls@[k] == t;
            assert(w3.len() <= walls@.len());
            if k < w3.len() {
                assert(w3[k] == t);
                if k < w2.len() {
                    assert(w2[k] == t);
                    if k < w1.len() {
                        assert(w1[k] == t);
                    }
                }
            }
        }
        if is_cardinal(t) && cell@[slot_of(t)].is_some() {
            if t == TileType::North {
                assert(w1[w1.len() - 1] == t);
                assert(w2[w1.len() - 1] == t);
                assert(w3[w1.len() - 1] == t);
                assert(walls@[w1.len() - 1] == t);
            } else if t == TileType::East {
                assert(w2[w2.len() - 1] == t);
                assert(w3[w2.len() - 1] == t);
                assert(walls@[w2.len() - 1] == t);
            } else if t == TileType::South {
                assert(w3[w3.len() - 1] == t);
                assert(walls@[w3.len() - 1] == t);
            } else {
                assert(walls@[walls@.len() - 1] == t);
            }
        }
    }
    walls
}

/// Some wall slot of the cell holds a surface.
pub open spec fn has_wall(c: Seq<Option<u64>>) -> bool {
    c[3].is_some() || c[4].is_some() || c[5].is_some() || c[6].is_some()
}

/// The voxel may start a corridor out of `rect`: on a side face at floor
/// level, not excluded, and holding a wall.
pub open spec fn eligible_origin(map: GridMap, rect: Rect3, exclude: Seq<IVec3>, p: IVec3) -> bool {
    &&& on_wall_base(rect, p@)
    &&& !exclude.contains(p)
    &&& has_wall(map.cell(p@))
}

/// Picks, uniformly at random, a floor-level voxel on a side face of `rect`
/// that is not in `exclude` and holds a wall, then one of its walls. `None`
/// exactly when no such voxel exists.
pub fn random_surface_wall_point(exclude: &Vec<IVec3>, rect: Rect3, map: &GridMap) -> (r: Option<
    IVec3Tile,
>)
    requires
        map.wf(),
        rect_in_map(*map, rect),
    ensures
        r.is_none() <==> !exists|p: IVec3| #[trigger] eligible_origin(*map, rect, exclude@, p),
        r matches Some(t) ==> {
            &&& eligible_origin(*map, rect, exclude@, t.position)
            &&& is_cardinal(t.orientation)
            &&& map.cell(t.position@)[slot_of(t.orientation)].is_some()
        },
{
    let points = surface_wall_points(rect, exclude);
    let mut walled: Vec<IVec3> = Vec::new();
    let mut i: usize = 0;
    while i < points.len()
        invariant
            map.wf(),
            rect_in_map(*map, rect),
            i <= points@.len(),
            forall|p: IVec3| #[trigger]
                points@.contains(p) <==> on_wall_base(rect, p@) && !exclude@.contains(p),
            forall|q: IVec3| #[trigger]
                walled@.contains(q) <==> (exists|k: int| 0 <= k < i && points@[k] == q) && has_wall(
                    map.cell(q@),
                ),
        decreases points@.len() - i,
    {
        let p = points[i];
        assert(points@.contains(p));
        proof {
            map.lemma_cell_len(p@);
        }
        let cell = map.at(p);
        let ghost before = walled@;
        if cell[3].is_some() || cell[4].is_some() || cell[5].is_some() || cell[6].is_some() {
            walled.push(p);
        }
        assert forall|q: IVec3| #[trigger]
            walled@.contains(q) <==> (exists|k: int| 0 <= k < i + 1 && points@[k] == q) && has_wall(
                map.cell(q@),
            ) by {
            if walled@.contains(q) && !before.contains(q) {
                let k = choose|k: int| 0 <= k < walled@.len() && walled@[k] == q;
                assert(k == before.len());
                assert(points@[i as int] == q);
            }
            if before.contains(q) {
                let k = choose|k: int| 0 <= k < before.len() && before[k] == q;
                assert(walled@[k] == q);
            }
            if (exists|k: int| 0 <= k < i + 1 && points@[k] == q) && has_wall(map.cell(q@)) {
                let k = choose|k: int| 0 <= k < i + 1 && points@[k] == q;
                if k == i {
                    assert(walled@[walled@.len() - 1] == q);
                } else {
                    assert(before.contains(q));
                    let j = choose|j: int| 0 <= j < before.len() && before[j] == q;
                    assert(walled@[j] == q);
                }
            }
        }
        i += 1;
    }
    proof {
        assert forall|p: IVec3| !#[trigger] eligible_origin(*map, rect, exclude@, p) || walled@.contains(p) by {
            if eligible_origin(*map, rect, exclude@, p) {
                assert(points@.contains(p));
                let k = choose|k: int| 0 <= k < points@.len() && points@[k] == p;
            }
        }
    }
    match pick(&walled) {
        None => {
            assert forall|p: IVec3| !#[trigger] eligible_origin(*map, rect, exclude@, p) by {
                assert(!walled@.contains(p));
            }
            None
        },
        Some(point) => {
            assert(walled@.contains(point));
            proof {
                let k = choose|k: int| 0 <= k < i && points@[k] == point;
                assert(points@.contains(point));
            }
            assert(eligible_origin(*map, rect, exclude@, point));
            let cell = map.at(point);
            let walls = open_walls(&cell);
            assert(has_wall(cell@));
            let ghost w = if cell@[3].is_some() {
                TileType::North
            } else if cell@[4].is_some() {
                TileType::East
            } else if cell@[5].is_some() {
                TileType::South
            } else {
                TileType::West
            };
            assert(walls@.contains(w));
            match pick(&walls) {
                None => None,
                Some(orientation) => {
                    assert(walls@.contains(orientation));
                    Some(IVec3Tile::new(point, orientation))
                },
            }
        },
    }
}

/// The lowest corner of a `w` by `h` by `l` room attached at `anchor` to a
/// corridor arriving along `o`: the room extends away from the corridor and is
/// centred on the anchor across it.
pub open spec fn attached_lo(anchor: Pos, o: TileType, w: int, h: int, l: int) -> Pos {
    match o {
        TileType::East => (anchor.0, anchor.1, anchor.2 - l / 2),
        TileType::West => (anchor.0 - w + 1, anchor.1, anchor.2 - l / 2),
        TileType::North => (anchor.0 - w / 2, anchor.1, anchor.2),
        _ => (anchor.0 - w / 2, anchor.1, anchor.2 - l + 1),
    }
}

/// The box of a `w` by `h` by `l` room attached at `anchor` for a corridor
/// arriving along `o`, lowest corner first.
pub open spec fn candidate_spec(anchor: IVec3, o: TileType, w: i32, h: i32, l: i32) -> Rect3 {
    let lo = attached_lo(anchor@, o, w as int, h as int, l as int);
    Rect3 {
        pos1: IVec3 { x: lo.0 as i32, y: lo.1 as i32, z: lo.2 as i32 },
        pos2: IVec3 { x: (lo.0 + w - 1) as i32, y: (lo.1 + h - 1) as i32, z: (lo.2 + l - 1) as i32 },
    }
}

/// The voxel one step past a corridor point, along its orientation.
pub open spec fn anchor_of(t: IVec3Tile) -> IVec3 {
    let a = pos_add(t.position@, step_of(t.orientation));
    IVec3 { x: a.0 as i32, y: a.1 as i32, z: a.2 as i32 }
}

/// The box of a room attached at `anchor` for a corridor arriving along `o`.
pub fn candidate_rect(anchor: IVec3, o: TileType, w: i32, h: i32, l: i32) -> (r: Rect3)
    requires
        is_cardinal(o),
        1 <= w <= MAX_SPAN,
        1 <= h <= MAX_SPAN,
        1 <= l <= MAX_SPAN,
        -MAX_COORD <= anchor.x <= MAX_COORD,
        -MAX_COORD <= anchor.y <= MAX_COORD,
        -MAX_COORD <= anchor.z <= MAX_COORD,
    ensures
        r == candidate_spec(anchor, o, w, h, l),
        r.lo() == attached_lo(anchor@, o, w as int, h as int, l as int),
        r.hi() == pos_add(r.lo(), (w - 1, h - 1, l - 1)),
        r.contains(anchor@),
        !r.contains(pos_add(anchor@, step_of(opposite(o)))),
{
    let pos1 = match o {
        TileType::East => IVec3::new(anchor.x, anchor.y, anchor.z - l / 2),
        TileType::West => IVec3::new(anchor.x - w + 1, anchor.y, anchor.z - l / 2),
        TileType::North => IVec3::new(anchor.x - w / 2, anchor.y, anchor.z),
        _ => IVec3::new(anchor.x - w / 2, anchor.y, anchor.z - l + 1),
    };
    Rect3::new(pos1, w, h, l)
}

/// Bound on the anchor coordinates that `candidate_rect` takes, far beyond any
/// map extent.
pub const MAX_COORD: i32 = 1000000;

/// The weight scale: the least common multiple of 1 to 20.
pub const WEIGHT_SCALE: u64 = 232792560;

/// A room with `c` connections is picked with weight inversely proportional to
/// `c + 1`, exactly so while `c + 1` divides the scale (up to 20).
pub open spec fn selection_weight(c: int) -> int {
    if c + 1 > WEIGHT_SCALE {
        0
    } else {
        WEIGHT_SCALE as int / (c + 1)
    }
}

/// A room with fewer connections weighs strictly more than one with more, for
/// connection counts below ten thousand.
pub proof fn lemma_fewer_connections_weigh_more(a: int, b: int)
    requires
        0 <= a < b < 10000,
    ensures
        selection_weight(a) > selection_weight(b),
{
    let s = WEIGHT_SCALE as int;
    let qa = s / (a + 1);
    let qb = s / (b + 1);
    let ra = s % (a + 1);
    let rb = s % (b + 1);
    vstd::arithmetic::div_mod::lemma_fundamental_div_mod(s, a + 1);
    vstd::arithmetic::div_mod::lemma_fundamental_div_mod(s, b + 1);
    assert(0 <= ra < a + 1);
    assert(0 <= rb < b + 1);
    assert(qa > qb) by (nonlinear_arith)
        requires
            s == 232792560,
            0 <= a < b < 10000,
            s == (a + 1) * qa + ra,
            s == (b + 1) * qb + rb,
            0 <= ra < a + 1,
            0 <= rb < b + 1,
    {
        if qa <= qb {
            assert((a + 1) * qa <= (a + 1) * qb);
            assert((b + 1) * qb == (a + 1) * qb + (b - a) * qb);
            assert(qb * (b - a) >= qb);
            assert(qb < b + 1);
            assert((b + 1) * qb < (b + 1) * (b + 1));
        }
    }
}

/// The selection weight of a room with `entrances` entrances and `exits` exits.
pub fn connection_weight(entrances: usize, exits: usize) -> (r: u64)
    ensures
        r == selection_weight(entrances + exits),
        r <= WEIGHT_SCALE,
{
    if entrances >= WEIGHT_SCALE as usize || exits >= WEIGHT_SCALE as usize - entrances {
        0
    } else {
        let c = (entrances + exits + 1) as u64;
        WEIGHT_SCALE / c
    }
}

/// Draws the legs of one corridor: a turn count `t` in
/// `[min_turns, max_turns]`, then `t + 1` legs, each with a distance in
/// `[min_dist, max_dist]` and a random turn direction.
pub fn random_legs(config: &GenConfig) -> (r: Vec<Leg>)
    requires
        config.wf(),
    ensures
        config.min_turns + 1 <= r@.len() <= config.max_turns + 1,
        forall|t: int|
            0 <= t < r@.len() ==> config.min_dist <= #[trigger] r@[t].distance <= config.max_dist,
{
    let turns = random_range(config.min_turns, config.max_turns + 1);
    let mut legs: Vec<Leg> = Vec::new();
    let mut t: i32 = 0;
    while t <= turns
        invariant
            config.wf(),
            config.min_turns <= turns <= config.max_turns,
            0 <= t <= turns + 1,
            legs@.len() == t,
            forall|u: int|
                0 <= u < legs@.len() ==> config.min_dist <= #[trigger] legs@[u].distance
                    <= config.max_dist,
        decreases turns + 1 - t,
    {
        let turn_left = random_bool();
        let distance = random_range(config.min_dist, config.max_dist + 1);
        legs.push(Leg { distance, turn_left });
        t += 1;
    }
    legs
}

} // verus!
