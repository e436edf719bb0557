use vstd::prelude::*;

verus! {

/// A lattice point in mathematical form.
pub type Pos = (int, int, int);

/// An integer lattice coordinate: one voxel of the map.
#[derive(Clone, Copy, Debug, PartialEq, Eq, Structural)]
pub struct IVec3 {
    pub x: i32,
    pub y: i32,
    pub z: i32,
}

impl View for IVec3 {
    type V = Pos;

    open spec fn view(&self) -> Pos {
        (self.x as int, self.y as int, self.z as int)
    }
}

/// The point `p` moved by `d`.
pub open spec fn pos_add(p: Pos, d: Pos) -> Pos {
    (p.0 + d.0, p.1 + d.1, p.2 + d.2)
}

impl IVec3 {
    pub fn new(x: i32, y: i32, z: i32) -> (r: IVec3)
        ensures
            r == (IVec3 { x, y, z }),
    {
        IVec3 { x, y, z }
    }

    /// Component-wise sum.
    pub fn add(self, d: IVec3) -> (r: IVec3)
        requires
            i32::MIN <= self.x + d.x <= i32::MAX,
            i32::MIN <= self.y + d.y <= i32::MAX,
            i32::MIN <= self.z + d.z <= i32::MAX,
        ensures
            r@ == pos_add(self@, d@),
    {
        IVec3 { x: self.x + d.x, y: self.y + d.y, z: self.z + d.z }
    }
}

/// The seven surface slots of a voxel.
#[derive(Clone, Copy, Debug, PartialEq, Eq, Structural)]
pub enum TileType {
    Center,
    Ceiling,
    Floor,
    North,
    East,
    South,
    West,
}

/// The four wall orientations.
pub open spec fn is_cardinal(t: TileType) -> bool {
    t == TileType::North || t == TileType::East || t == TileType::South || t == TileType::West
}

/// Quarter turn: left goes North, West, South, East; right goes the other way;
/// anything that is not a wall turns into `Center`.
pub open spec fn rotated(t: TileType, left: bool) -> TileType {
    match t {
        TileType::North => if left { TileType::West } else { TileType::East },
        TileType::West => if left { TileType::South } else { TileType::North },
        TileType::South => if left { TileType::East } else { TileType::West },
        TileType::East => if left { TileType::North } else { TileType::South },
        _ => TileType::Center,
    }
}

/// Half turn.
pub open spec fn opposite(t: TileType) -> TileType {
    rotated(rotated(t, true), true)
}

/// The unit step that a wall orientation points along: North is +z, South -z,
/// East +x, West -x; every other slot stands still.
pub open spec fn step_of(t: TileType) -> Pos {
    match t {
        TileType::North => (0, 0, 1),
        TileType::South => (0, 0, -1),
        TileType::East => (1, 0, 0),
        TileType::West => (-1, 0, 0),
        _ => (0, 0, 0),
    }
}

/// The index of a slot in a cell record.
pub open spec fn slot_of(t: TileType) -> int {
    match t {
        TileType::Center => 0,
        TileType::Ceiling => 1,
        TileType::Floor => 2,
        TileType::North => 3,
        TileType::East => 4,
        TileType::South => 5,
        TileType::West => 6,
    }
}

impl TileType {
    pub fn rotate90(&self, left: bool) -> (r: TileType)
        ensures
            r == rotated(*self, left),
    {
        if left {
            match self {
                TileType::North => TileType::West,
                TileType::West => TileType::South,
                TileType::South => TileType::East,
                TileType::East => TileType::North,
                _ => TileType::Center,
            }
        } else {
            match self {
                TileType::North => TileType::East,
                TileType::East => TileType::South,
                TileType::South => TileType::West,
                TileType::West => TileType::North,
                _ => TileType::Center,
            }
        }
    }

    /// The orientation turned half way round.
    pub fn opposite(&self) -> (r: TileType)
        ensures
            r == opposite(*self),
    {
        self.rotate90(true).rotate90(true)
    }

    /// The unit step along this orientation.
    pub fn step(&self) -> (r: IVec3)
        ensures
            r@ == step_of(*self),
    {
        match self {
            TileType::North => IVec3 { x: 0, y: 0, z: 1 },
            TileType::South => IVec3 { x: 0, y: 0, z: -1 },
            TileType::East => IVec3 { x: 1, y: 0, z: 0 },
            TileType::West => IVec3 { x: -1, y: 0, z: 0 },
            _ => IVec3 { x: 0, y: 0, z: 0 },
        }
    }

    /// Where this orientation's surface is kept in a cell record.
    pub fn slot(&self) -> (r: usize)
        ensures
            r as int == slot_of(*self),
            r < 7,
    {
        match self {
            TileType::Center => 0,
            TileType::Ceiling => 1,
            TileType::Floor => 2,
            TileType::North => 3,
            TileType::East => 4,
            TileType::South => 5,
            TileType::West => 6,
        }
    }
}

impl Default for TileType {
    fn default() -> (r: TileType)
        ensures
            r == TileType::Center,
    {
        TileType::Center
    }
}

/// A voxel together with the wall orientation it was reached along.
#[derive(Clone, Copy, Debug, PartialEq, Eq, Structural)]
pub struct IVec3Tile {
    pub position: IVec3,
    pub orientation: TileType,
}

impl View for IVec3Tile {
    type V = (Pos, TileType);

    open spec fn view(&self) -> (Pos, TileType) {
        (self.position@, self.orientation)
    }
}

impl IVec3Tile {
    pub fn new(position: IVec3, orientation: TileType) -> (r: IVec3Tile)
        ensures
            r.position == position,
            r.orientation == orientation,
    {
        IVec3Tile { position, orientation }
    }
}

/// The voxel after `p` in the box `[min, max]` when walking x fastest, then y,
/// then z; `None` after the last one.
pub open spec fn raster_next(p: Pos, min: Pos, max: Pos) -> Option<Pos> {
    if p.0 < max.0 {
        Some((p.0 + 1, p.1, p.2))
    } else if p.1 < max.1 {
        Some((min.0, p.1 + 1, p.2))
    } else if p.2 < max.2 {
        Some((min.0, min.1, p.2 + 1))
    } else {
        None
    }
}

/// The voxel lies in the box `[min, max]`.
pub open spec fn within(p: Pos, min: Pos, max: Pos) -> bool {
    min.0 <= p.0 <= max.0 && min.1 <= p.1 <= max.1 && min.2 <= p.2 <= max.2
}

/// How many voxels come before `p` when walking the box `[min, max]`.
pub open spec fn raster_rank(p: Pos, min: Pos, max: Pos) -> int {
    (p.0 - min.0) + (max.0 - min.0 + 1) * ((p.1 - min.1) + (max.1 - min.1 + 1) * (p.2 - min.2))
}

/// The number of voxels in the box `[min, max]`.
pub open spec fn box_volume(min: Pos, max: Pos) -> int {
    (max.0 - min.0 + 1) * ((max.1 - min.1 + 1) * (max.2 - min.2 + 1))
}

/// Walking a box visits each voxel once: every voxel has a rank below the
/// volume, the next voxel is one rank later, and only the voxel of the last
/// rank has no successor.
pub proof fn lemma_raster_walk(p: Pos, min: Pos, max: Pos)
    requires
        within(p, min, max),
    ensures
        0 <= raster_rank(p, min, max) < box_volume(min, max),
        raster_next(p, min, max) matches Some(q) ==> within(q, min, max) && raster_rank(q, min, max)
            == raster_rank(p, min, max) + 1,
        raster_next(p, min, max) is None <==> raster_rank(p, min, max) == box_volume(min, max) - 1,
{
    let w = max.0 - min.0 + 1;
    let h = max.1 - min.1 + 1;
    let d = max.2 - min.2 + 1;
    let a = p.0 - min.0;
    let b = p.1 - min.1;
    let c = p.2 - min.2;
    assert(0 <= a + w * (b + h * c) < w * (h * d)) by (nonlinear_arith)
        requires
            0 <= a < w,
            0 <= b < h,
            0 <= c < d,
    {
        assert(b + h * c <= h * d - 1) by (nonlinear_arith)
            requires 0 <= b < h, 0 <= c < d;
        assert(w * (b + h * c) <= w * (h * d - 1)) by (nonlinear_arith)
            requires 0 < w, b + h * c <= h * d - 1;
        assert(w * (b + h * c) >= 0) by (nonlinear_arith)
            requires 0 < w, 0 <= b, 0 <= c, 0 < h;
    }
    if a + 1 < w {
    } else if b + 1 < h {
        assert(w * (b + 1 + h * c) == w * (b + h * c) + w) by (nonlinear_arith);
    } else if c + 1 < d {
        assert(w * (0 + h * (c + 1)) == w * (b + h * c) + w) by (nonlinear_arith)
            requires b == h - 1;
    } else {
        assert(a + w * (b + h * c) == w * (h * d) - 1) by (nonlinear_arith)
            requires a == w - 1, b == h - 1, c == d - 1;
    }
    if raster_rank(p, min, max) == box_volume(min, max) - 1 {
        assert(a == w - 1 && b == h - 1 && c == d - 1) by (nonlinear_arith)
            requires
                a + w * (b + h * c) == w * (h * d) - 1,
                0 <= a < w,
                0 <= b < h,
                0 <= c < d,
        {
            assert(b + h * c <= h * d - 1) by (nonlinear_arith)
                requires 0 <= b < h, 0 <= c < d;
            assert(w * (b + h * c) <= w * (h * d - 1)) by (nonlinear_arith)
                requires 0 < w, b + h * c <= h * d - 1;
            if a < w - 1 {
            }
            if b + h * c < h * d - 1 {
                assert(w * (b + h * c) <= w * (h * d - 1) - w) by (nonlinear_arith)
                    requires 0 < w, b + h * c <= h * d - 2;
            }
            if c < d - 1 {
                assert(b + h * c <= h * d - 1 - h) by (nonlinear_arith)
                    requires 0 <= b < h, 0 <= c < d - 1;
            }
        }
    }
}

/// Hands out every voxel of a box, x fastest, then y, then z.
pub struct WithinBoxIterator {
    position: IVec3,
    min: IVec3,
    max: IVec3,
    done: bool,
}

impl WithinBoxIterator {
    /// The voxel that `next` hands out next, if any.
    pub closed spec fn current(self) -> Option<Pos> {
        if self.done {
            None
        } else {
            Some(self.position@)
        }
    }

    /// The lowest and highest corners of the box walked.
    pub closed spec fn bounds(self) -> (Pos, Pos) {
        (self.min@, self.max@)
    }

    pub closed spec fn wf(self) -> bool {
        &&& self.min.x <= self.max.x && self.min.y <= self.max.y && self.min.z <= self.max.z
        &&& !self.done ==> {
            &&& self.min.x <= self.position.x <= self.max.x
            &&& self.min.y <= self.position.y <= self.max.y
            &&& self.min.z <= self.position.z <= self.max.z
        }
    }

    /// Starts at `min`.
    pub fn new(min: IVec3, max: IVec3) -> (r: WithinBoxIterator)
        requires
            min.x <= max.x,
            min.y <= max.y,
            min.z <= max.z,
        ensures
            r.wf(),
            r.bounds() == (min@, max@),
            r.current() == Some(min@),
    {
        WithinBoxIterator { position: min, min, max, done: false }
    }

    /// Hands out the current voxel and moves on to the next one.
    pub fn next(&mut self) -> (r: Option<IVec3>)
        requires
            old(self).wf(),
        ensures
            final(self).wf(),
            final(self).bounds() == old(self).bounds(),
            r matches Some(p) ==> old(self).current() == Some(p@),
            r is None ==> old(self).current() is None,
            final(self).current() == match old(self).current() {
                Some(p) => raster_next(p, old(self).bounds().0, old(self).bounds().1),
                None => None,
            },
    {
        if self.done {
            return None;
        }
        let here = self.position;
        if self.position.x < self.max.x {
            self.position.x = self.position.x + 1;
        } else if self.position.y < self.max.y {
            self.position.x = self.min.x;
            self.position.y = self.position.y + 1;
        } else if self.position.z < self.max.z {
            self.position.x = self.min.x;
            self.position.y = self.min.y;
            self.position.z = self.position.z + 1;
        } else {
            self.done = true;
        }
        Some(here)
    }
}

/// An axis-aligned box given by two opposite corners, in either order; both
/// corners belong to the box.
#[derive(Clone, Copy, Debug, PartialEq, Eq, Structural)]
pub struct Rect3 {
    pub pos1: IVec3,
    pub pos2: IVec3,
}

pub open spec fn min_int(a: int, b: int) -> int {
    if a <= b { a } else { b }
}

pub open spec fn max_int(a: int, b: int) -> int {
    if a >= b { a } else { b }
}

/// The closed intervals `[a0, a1]` and `[b0, b1]` share a point.
pub open spec fn overlaps(a0: int, a1: int, b0: int, b1: int) -> bool {
    a0 <= b1 && a1 >= b0
}

impl Rect3 {
    /// The lowest corner.
    pub open spec fn lo(self) -> Pos {
        (
            min_int(self.pos1.x as int, self.pos2.x as int),
            min_int(self.pos1.y as int, self.pos2.y as int),
            min_int(self.pos1.z as int, self.pos2.z as int),
        )
    }

    /// The highest corner.
    pub open spec fn hi(self) -> Pos {
        (
            max_int(self.pos1.x as int, self.pos2.x as int),
            max_int(self.pos1.y as int, self.pos2.y as int),
            max_int(self.pos1.z as int, self.pos2.z as int),
        )
    }

    /// The voxel `p` lies in the box.
    pub open spec fn contains(self, p: Pos) -> bool {
        &&& self.lo().0 <= p.0 <= self.hi().0
        &&& self.lo().1 <= p.1 <= self.hi().1
        &&& self.lo().2 <= p.2 <= self.hi().2
    }

    /// The two boxes share a voxel (touching faces count).
    pub open spec fn meets(self, o: Rect3) -> bool {
        &&& overlaps(self.lo().0, self.hi().0, o.lo().0, o.hi().0)
        &&& overlaps(self.lo().1, self.hi().1, o.lo().1, o.hi().1)
        &&& overlaps(self.lo().2, self.hi().2, o.lo().2, o.hi().2)
    }

    /// The box of `width` by `height` by `length` voxels whose lowest corner is `pos`.
    pub fn new(pos: IVec3, width: i32, height: i32, length: i32) -> (r: Rect3)
        requires
            i32::MIN <= pos.x + width - 1 <= i32::MAX,
            i32::MIN <= pos.y + height - 1 <= i32::MAX,
            i32::MIN <= pos.z + length - 1 <= i32::MAX,
        ensures
            r.pos1 == pos,
            r.pos2@ == (pos.x + width - 1, pos.y + height - 1, pos.z + length - 1),
    {
        Rect3 {
            pos1: pos,
            pos2: IVec3::new(
                (pos.x as i64 + width as i64 - 1) as i32,
                (pos.y as i64 + height as i64 - 1) as i32,
                (pos.z as i64 + length as i64 - 1) as i32,
            ),
        }
    }

    /// Returns true if this box shares a voxel with `other`.
    pub fn intersect(&self, other: &Rect3) -> (r: bool)
        ensures
            r == self.meets(*other),
    {
        let min_self = self.min();
        let max_self = self.max();
        let min_other = other.min();
        let max_other = other.max();
        min_self.x <= max_other.x && max_self.x >= min_other.x && min_self.y <= max_other.y
            && max_self.y >= min_other.y && min_self.z <= max_other.z && max_self.z
            >= min_other.z
    }

    pub fn min(&self) -> (r: IVec3)
        ensures
            r@ == self.lo(),
    {
        IVec3::new(
            if self.pos1.x <= self.pos2.x { self.pos1.x } else { self.pos2.x },
            if self.pos1.y <= self.pos2.y { self.pos1.y } else { self.pos2.y },
            if self.pos1.z <= self.pos2.z { self.pos1.z } else { self.pos2.z },
        )
    }

    pub fn max(&self) -> (r: IVec3)
        ensures
            r@ == self.hi(),
    {
        IVec3::new(
            if self.pos1.x >= self.pos2.x { self.pos1.x } else { self.pos2.x },
            if self.pos1.y >= self.pos2.y { self.pos1.y } else { self.pos2.y },
            if self.pos1.z >= self.pos2.z { self.pos1.z } else { self.pos2.z },
        )
    }
}

} // verus!
