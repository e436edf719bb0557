use vstd::prelude::*;

use crate::geometry::{IVec3, IVec3Tile, Pos, TileType, pos_add, step_of, rotated, is_cardinal};
use crate::grid::GridMap;

verus! {

/// One straight stretch of a corridor, and the quarter turn taken after it.
#[derive(Clone, Copy, Debug, PartialEq, Eq, Structural)]
pub struct Leg {
    pub distance: i32,
    pub turn_left: bool,
}

/// How a corridor walk ended.
#[derive(Clone, Copy, Debug, PartialEq, Eq, Structural)]
pub enum WalkEnd {
    /// Every leg was walked to its end.
    Completed,
    /// The last point repeats an earlier point of the path.
    Revisited,
    /// The next point lay outside the map; it was not added.
    OutOfBounds,
    /// The last point is already occupied in the map.
    Collided,
}

/// A grown corridor: its oriented points and how the walk ended.
pub struct Walk {
    pub path: Vec<IVec3Tile>,
    pub end: WalkEnd,
}

/// The oriented points of a path in mathematical form.
pub open spec fn path_view(path: Seq<IVec3Tile>) -> Seq<(Pos, TileType)> {
    path.map_values(|e: IVec3Tile| e@)
}

/// The `m` points met when stepping `m` times from `p` along `o`.
pub open spec fn run(p: Pos, o: TileType, m: int) -> Seq<(Pos, TileType)>
    decreases m,
{
    if m <= 0 {
        Seq::empty()
    } else {
        seq![(pos_add(p, step_of(o)), o)] + run(pos_add(p, step_of(o)), o, m - 1)
    }
}

/// Where `m` steps from `p` along `o` end.
pub open spec fn advance(p: Pos, o: TileType, m: int) -> Pos
    decreases m,
{
    if m <= 0 {
        p
    } else {
        advance(pos_add(p, step_of(o)), o, m - 1)
    }
}

/// Every point that the legs visit from `p` facing `o`, when nothing stops the walk.
pub open spec fn plan(p: Pos, o: TileType, legs: Seq<Leg>) -> Seq<(Pos, TileType)>
    decreases legs.len(),
{
    if legs.len() == 0 {
        Seq::empty()
    } else {
        run(p, o, legs[0].distance as int) + plan(
            advance(p, o, legs[0].distance as int),
            rotated(o, legs[0].turn_left),
            legs.drop_first(),
        )
    }
}

/// The point at index `k` repeats the position of an earlier point.
pub open spec fn revisits(path: Seq<(Pos, TileType)>, k: int) -> bool {
    exists|j: int| 0 <= j < k && #[trigger] path[j].0 == path[k].0
}

/// The point at index `k` is new, in bounds and unoccupied.
pub open spec fn fresh(map: GridMap, path: Seq<(Pos, TileType)>, k: int) -> bool {
    &&& !revisits(path, k)
    &&& map.in_bounds(path[k].0)
    &&& !map.occupied(path[k].0)
}

/// `b` continues `a` straight on or after one quarter turn.
pub open spec fn turn_ok(a: TileType, b: TileType) -> bool {
    b == a || b == rotated(a, true) || b == rotated(a, false)
}

/// Consecutive points are one unit step apart, along the orientation of the
/// later point, and orientations change by at most a quarter turn.
pub open spec fn chained(path: Seq<(Pos, TileType)>) -> bool {
    forall|k: int|
        0 <= k < path.len() - 1 ==> {
            &&& #[trigger] path[k + 1].0 == pos_add(path[k].0, step_of(path[k + 1].1))
            &&& turn_ok(path[k].1, path[k + 1].1)
            &&& is_cardinal(path[k + 1].1)
        }
}

/// What walking `legs` from `origin` over `map` yields: the planned points up to
/// the first stop, with the stop as the end.
pub open spec fn walk_spec(
    map: GridMap,
    origin: IVec3Tile,
    legs: Seq<Leg>,
    path: Seq<(Pos, TileType)>,
    end: WalkEnd,
) -> bool {
    let full = plan(origin.position@, origin.orientation, legs);
    let n = path.len() as int;
    &&& n >= 1
    &&& path[0] == origin@
    &&& n - 1 <= full.len()
    &&& forall|k: int| 1 <= k < n ==> #[trigger] path[k] == full[k - 1]
    &&& forall|k: int| 1 <= k < n - 1 ==> #[trigger] fresh(map, path, k)
    &&& match end {
        WalkEnd::Completed => n - 1 == full.len() && (n > 1 ==> fresh(map, path, n - 1)),
        WalkEnd::Revisited => n >= 2 && revisits(path, n - 1),
        WalkEnd::OutOfBounds => {
            &&& n - 1 < full.len()
            &&& !map.in_bounds(full[n - 1].0)
            &&& !revisits(path.push(full[n - 1]), n)
            &&& (n > 1 ==> fresh(map, path, n - 1))
        },
        WalkEnd::Collided => {
            &&& n >= 2
            &&& !revisits(path, n - 1)
            &&& map.in_bounds(path[n - 1].0)
            &&& map.occupied(path[n - 1].0)
        },
    }
}

/// A walk that comes back onto itself keeps the repeated point once more, as
/// its last point, and nothing after it: the points before it are pairwise
/// apart, and the last point sits on exactly one of them.
pub proof fn lemma_revisit_ends_walk(
    map: GridMap,
    origin: IVec3Tile,
    legs: Seq<Leg>,
    path: Seq<(Pos, TileType)>,
)
    requires
        walk_spec(map, origin, legs, path, WalkEnd::Revisited),
    ensures
        path.len() >= 2,
        forall|i: int, j: int| 0 <= i < j < path.len() - 1 ==> #[trigger] path[i].0 != #[trigger] path[j].0,
        exists|j: int| 0 <= j < path.len() - 1 && #[trigger] path[j].0 == path[path.len() - 1].0,
        path.len() - 1 <= plan(origin.position@, origin.orientation, legs).len(),
        forall|k: int|
            1 <= k < path.len() ==> #[trigger] path[k] == plan(
                origin.position@,
                origin.orientation,
                legs,
            )[k - 1],
{
    let n = path.len() as int;
    assert forall|i: int, j: int| 0 <= i < j < n - 1 implies #[trigger] path[i].0 != #[trigger] path[j].0 by {
        assert(fresh(map, path, j));
    }
}

/// Whether some point of `path` sits at `p`.
pub fn contains_position(path: &Vec<IVec3Tile>, p: IVec3) -> (r: bool)
    ensures
        r == exists|j: int| 0 <= j < path@.len() && #[trigger] path@[j].position == p,
{
    let mut i: usize = 0;
    while i < path.len()
        invariant
            i <= path@.len(),
            forall|j: int| 0 <= j < i ==> #[trigger] path@[j].position != p,
        decreases path@.len() - i,
    {
        if path[i].position == p {
            return true;
        }
        i += 1;
    }
    false
}

proof fn lemma_skip_cons(s: Seq<(Pos, TileType)>, k: int, a: (Pos, TileType), t: Seq<(Pos, TileType)>)
    requires
        0 <= k <= s.len(),
        s.skip(k) == seq![a] + t,
    ensures
        k < s.len(),
        s[k] == a,
        s.skip(k + 1) == t,
{
    assert(s.skip(k).len() == 1 + t.len());
    assert(s.skip(k)[0] == a);
    assert(s.skip(k + 1) =~= s.skip(k).drop_first());
    assert((seq![a] + t).drop_first() =~= t);
}

/// Walks `legs` from `origin`, one voxel at a time. Before each new point it
/// stops if the point repeats the path (keeping it) or lies outside the map
/// (dropping it); after adding a point it stops if the point is occupied.
pub fn walk_corridor(map: &GridMap, origin: IVec3Tile, legs: &Vec<Leg>) -> (r: Walk)
    requires
        map.wf(),
        map.in_bounds(origin.position@),
        is_cardinal(origin.orientation),
        forall|t: int| 0 <= t < legs@.len() ==> #[trigger] legs@[t].distance >= 1,
    ensures
        walk_spec(*map, origin, legs@, path_view(r.path@), r.end),
        chained(path_view(r.path@)),
{
    let ghost full = plan(origin.position@, origin.orientation, legs@);
    let mut path: Vec<IVec3Tile> = Vec::new();
    path.push(origin);
    let mut current = origin.position;
    let mut orientation = origin.orientation;
    let mut t: usize = 0;
    assert(legs@.skip(0) =~= legs@);
    while t < legs.len()
        invariant
            map.wf(),
            t <= legs@.len(),
            forall|u: int| 0 <= u < legs@.len() ==> #[trigger] legs@[u].distance >= 1,
            full == plan(origin.position@, origin.orientation, legs@),
            path@.len() >= 1,
            path_view(path@)[0] == origin@,
            path@.len() - 1 <= full.len(),
            forall|k: int| 1 <= k < path@.len() ==> #[trigger] path_view(path@)[k] == full[k - 1],
            forall|k: int| 1 <= k < path@.len() ==> #[trigger] fresh(*map, path_view(path@), k),
            full.skip(path@.len() - 1) == plan(current@, orientation, legs@.skip(t as int)),
            current == path@.last().position,
            map.in_bounds(current@),
            is_cardinal(orientation),
            turn_ok(path@.last().orientation, orientation),
            chained(path_view(path@)),
        decreases legs@.len() - t,
    {
        let leg = legs[t];
        let ghost rest = legs@.skip(t + 1);
        assert(legs@.skip(t as int).drop_first() =~= rest);
        let mut j: i32 = 0;
        while j < leg.distance
            invariant
                map.wf(),
                0 <= j <= leg.distance,
                full == plan(origin.position@, origin.orientation, legs@),
                path@.len() >= 1,
                path_view(path@)[0] == origin@,
                path@.len() - 1 <= full.len(),
                forall|k: int| 1 <= k < path@.len() ==> #[trigger] path_view(path@)[k] == full[k - 1],
                forall|k: int| 1 <= k < path@.len() ==> #[trigger] fresh(*map, path_view(path@), k),
                full.skip(path@.len() - 1) == run(current@, orientation, leg.distance - j) + plan(
                    advance(current@, orientation, leg.distance - j),
                    rotated(orientation, leg.turn_left),
                    rest,
                ),
                current == path@.last().position,
                map.in_bounds(current@),
                is_cardinal(orientation),
                j == 0 ==> turn_ok(path@.last().orientation, orientation),
                j > 0 ==> path@.last().orientation == orientation,
                chained(path_view(path@)),
            decreases leg.distance - j,
        {
            let next = current.add(orientation.step());
            let ghost n = path@.len();
            let ghost pv = path_view(path@);
            let ghost tail = run(next@, orientation, leg.distance - j - 1) + plan(
                advance(next@, orientation, leg.distance - j - 1),
                rotated(orientation, leg.turn_left),
                rest,
            );
            assert(full.skip(n - 1) =~= seq![(next@, orientation)] + tail);
            proof {
                lemma_skip_cons(full, n - 1, (next@, orientation), tail);
            }
            let item = IVec3Tile::new(next, orientation);
            let ghost p0 = path@;
            if contains_position(&path, next) {
                path.push(item);
                proof {
                    let pv2 = path_view(path@);
                    assert(pv2 =~= pv.push((next@, orientation)));
                    let w = choose|w: int| 0 <= w < n && #[trigger] p0[w].position == next;
                    assert(pv[w].0 == p0[w].position@);
                    assert(pv2[w].0 == pv2[n as int].0);
                    assert forall|k: int| 1 <= k < pv2.len() implies #[trigger] pv2[k] == full[k - 1] by {
                        if k < n {
                            assert(pv2[k] == pv[k]);
                        }
                    }
                    assert forall|k: int| 1 <= k < pv2.len() - 1 implies #[trigger] fresh(*map, pv2, k) by {
                        assert(fresh(*map, pv, k));
                        assert forall|i: int| 0 <= i <= k implies pv2[i] == pv[i] by {}
                    }
                }
                return Walk { path, end: WalkEnd::Revisited };
            }
            if map.position_oob(next) {
                proof {
                    let pv2 = pv.push(full[n - 1]);
                    assert forall|w: int| 0 <= w < n implies #[trigger] pv2[w].0 != pv2[n as int].0 by {
                        assert(path@[w].position != next);
                    }
                    if n > 1 {
                        assert(fresh(*map, pv, n - 1));
                    }
                }
                return Walk { path, end: WalkEnd::OutOfBounds };
            }
            path.push(item);
            let ghost pv2 = path_view(path@);
            proof {
                assert(pv2 =~= pv.push((next@, orientation)));
                assert forall|w: int| 0 <= w < n implies #[trigger] pv2[w].0 != pv2[n as int].0 by {
                    assert(path@[w].position != next);
                }
                assert forall|k: int| 1 <= k < pv2.len() implies #[trigger] pv2[k] == full[k - 1] by {
                    if k < n {
                        assert(pv2[k] == pv[k]);
                    }
                }
                assert forall|k: int| 1 <= k < n implies #[trigger] fresh(*map, pv2, k) by {
                    assert(fresh(*map, pv, k));
                    assert forall|i: int| 0 <= i <= k implies pv2[i] == pv[i] by {}
                }
                assert(pv2[n - 1] == pv[n - 1]);
                assert forall|k: int| 0 <= k < pv2.len() - 1 implies {
                    &&& #[trigger] pv2[k + 1].0 == pos_add(pv2[k].0, step_of(pv2[k + 1].1))
                    &&& turn_ok(pv2[k].1, pv2[k + 1].1)
                    &&& is_cardinal(pv2[k + 1].1)
                } by {
                    if k < n - 1 {
                        assert(pv2[k] == pv[k]);
                        assert(pv2[k + 1] == pv[k + 1]);
                    }
                }
            }
            if map.position_collides(next) {
                return Walk { path, end: WalkEnd::Collided };
            }
            assert(fresh(*map, pv2, n as int));
            current = next;
            j += 1;
        }
        assert(full.skip(path@.len() - 1) == plan(current@, rotated(orientation, leg.turn_left), rest));
        orientation = orientation.rotate90(leg.turn_left);
        t += 1;
    }
    assert(legs@.skip(t as int) =~= Seq::<Leg>::empty());
    assert(full.skip(path@.len() - 1).len() == 0);
    Walk { path, end: WalkEnd::Completed }
}

} // verus!
