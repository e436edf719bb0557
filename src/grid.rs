use vstd::prelude::*;

use crate::geometry::{IVec3, Pos, TileType, slot_of};

verus! {

/// The surfaces of one voxel: one optional surface handle per `TileType` slot.
pub type Cell = [Option<u64>; 7];

/// The largest extent of the map along one axis.
pub const MAX_EXTENT: i32 = 4096;

/// The largest number of voxels in a map. A cell record takes 112 bytes, so
/// this keeps the one allocation of the grid near 112 MiB: the array is made
/// in one piece by ndarray, and a failed allocation aborts rather than
/// returning an error, so the bound stays well inside what a machine running
/// the game can hand out. The default map has 32000 voxels.
pub const MAX_CELLS: i32 = 1048576;

/// Rendering data for a surface: opaque mesh and material references.
#[derive(Clone, Copy, Debug, PartialEq, Eq, Structural)]
pub struct Tile {
    pub mesh: u64,
    pub material: u64,
}

/// The point lies in the box `[0, w) x [0, h) x [0, l)`.
pub open spec fn in_box(p: Pos, w: int, h: int, l: int) -> bool {
    0 <= p.0 < w && 0 <= p.1 < h && 0 <= p.2 < l
}

/// No slot of the cell holds a surface.
pub open spec fn cell_empty(c: Seq<Option<u64>>) -> bool {
    forall|i: int| 0 <= i < c.len() ==> #[trigger] c[i].is_none()
}

/// A cell record with every slot empty.
pub open spec fn empty_cell() -> Seq<Option<u64>> {
    seq![None, None, None, None, None, None, None]
}

impl TileType {
    /// A cell record with no surface in any slot.
    pub fn empty() -> (r: Cell)
        ensures
            r@ == empty_cell(),
    {
        let c: Cell = [None; 7];
        assert(c@ =~= empty_cell());
        c
    }
}

/// Three-dimensional storage of cell records: an ndarray `Array3`, held in a
/// private field because Verus cannot take ndarray's array type itself (its
/// `RawData` bound stops the declaration).
#[verifier::external_body]
pub struct CellArray {
    cells: ndarray::Array3<Cell>,
}

/// What a `CellArray` holds, by index.
pub uninterp spec fn cells_of(a: CellArray) -> Map<Pos, Seq<Option<u64>>>;

/// Relies on ndarray's `Array3::from_elem`: an array of the given shape with
/// a copy of `elem` at every index. It panics only when the product of the
/// non-zero extents overflows `isize`; `requires` bounds every extent by
/// `MAX_EXTENT`, none of them zero, and their product by `MAX_CELLS`.
#[verifier::external_body]
fn cells_filled(w: usize, h: usize, l: usize, elem: Cell) -> (r: CellArray)
    requires
        1 <= w <= MAX_EXTENT,
        1 <= h <= MAX_EXTENT,
        1 <= l <= MAX_EXTENT,
        w * h * l <= MAX_CELLS,
    ensures
        forall|p: Pos| #[trigger]
            cells_of(r).contains_key(p) <==> in_box(p, w as int, h as int, l as int),
        forall|p: Pos|
            in_box(p, w as int, h as int, l as int) ==> #[trigger] cells_of(r)[p] == elem@,
{
    CellArray { cells: ndarray::Array3::from_elem((w, h, l), elem) }
}

/// Relies on ndarray's `Index<[usize; 3]>`: the element at that index; it
/// panics outside the shape, which `requires` rules out.
#[verifier::external_body]
fn cells_get(a: &CellArray, x: usize, y: usize, z: usize) -> (r: Cell)
    requires
        cells_of(*a).contains_key((x as int, y as int, z as int)),
    ensures
        r@ == cells_of(*a)[(x as int, y as int, z as int)],
{
    a.cells[[x, y, z]]
}

/// Relies on ndarray's `IndexMut<[usize; 3]>`: writes the element at that
/// index and nothing else.
#[verifier::external_body]
fn cells_set(a: &mut CellArray, x: usize, y: usize, z: usize, c: Cell)
    requires
        cells_of(*old(a)).contains_key((x as int, y as int, z as int)),
    ensures
        cells_of(*final(a)) == cells_of(*old(a)).insert((x as int, y as int, z as int), c@),
{
    a.cells[[x, y, z]] = c;
}

/// What the rendering side is asked to do with surfaces.
#[derive(Clone, Copy, Debug, PartialEq, Eq, Structural)]
pub enum SurfaceCommand {
    /// Place `tile` as the `orientation` surface of the voxel at `position`.
    Spawn { handle: u64, tile: Tile, orientation: TileType, position: IVec3 },
    /// Remove a surface, with everything attached to it.
    Despawn { handle: u64 },
}

/// The queue of surface commands, and the handle the next spawned surface gets.
pub struct Commands {
    pub queue: Vec<SurfaceCommand>,
    pub next_handle: u64,
}

impl Commands {
    pub fn new() -> (r: Commands)
        ensures
            r.queue@.len() == 0,
            r.next_handle == 0,
    {
        Commands { queue: Vec::new(), next_handle: 0 }
    }
}

/// The despawn commands for the first `n` slots of a cell, slot by slot.
pub open spec fn despawns(c: Seq<Option<u64>>, n: int) -> Seq<SurfaceCommand>
    decreases n,
{
    if n <= 0 {
        Seq::empty()
    } else {
        despawns(c, n - 1) + match c[n - 1] {
            Some(h) => seq![SurfaceCommand::Despawn { handle: h }],
            None => Seq::empty(),
        }
    }
}

/// A bounded voxel grid; each voxel holds its cell record.
pub struct GridMap {
    cells: CellArray,
    width: i32,
    height: i32,
    length: i32,
}

impl GridMap {
    /// The extents along x, y and z.
    pub closed spec fn dims(self) -> Pos {
        (self.width as int, self.height as int, self.length as int)
    }

    /// The cell record at `p`.
    pub closed spec fn cell(self, p: Pos) -> Seq<Option<u64>> {
        cells_of(self.cells)[p]
    }

    pub closed spec fn store_ok(self) -> bool {
        &&& forall|p: Pos| #[trigger]
            cells_of(self.cells).contains_key(p) <==> in_box(
                p,
                self.width as int,
                self.height as int,
                self.length as int,
            )
        &&& forall|p: Pos| #[trigger] cells_of(self.cells).contains_key(p) ==> cells_of(self.cells)[p].len() == 7
    }

    pub open spec fn wf(self) -> bool {
        &&& 1 <= self.dims().0 <= MAX_EXTENT
        &&& 1 <= self.dims().1 <= MAX_EXTENT
        &&& 1 <= self.dims().2 <= MAX_EXTENT
        &&& self.dims().0 * self.dims().1 * self.dims().2 <= MAX_CELLS
        &&& self.store_ok()
    }

    /// The voxel lies inside the map.
    pub open spec fn in_bounds(self, p: Pos) -> bool {
        in_box(p, self.dims().0, self.dims().1, self.dims().2)
    }

    /// Some surface occupies the voxel.
    pub open spec fn occupied(self, p: Pos) -> bool {
        !cell_empty(self.cell(p))
    }

    /// Every voxel of the map is empty.
    pub open spec fn all_empty(self) -> bool {
        forall|p: Pos| self.in_bounds(p) ==> cell_empty(#[trigger] self.cell(p))
    }

    /// The two maps have the same extents and agree on every voxel but `p`.
    pub open spec fn same_except(self, o: GridMap, p: Pos) -> bool {
        &&& self.dims() == o.dims()
        &&& forall|q: Pos| q != p ==> #[trigger] self.cell(q) == o.cell(q)
    }

    /// Every cell record of a well-formed map has seven slots.
    pub proof fn lemma_cell_len(self, p: Pos)
        requires
            self.wf(),
            self.in_bounds(p),
        ensures
            self.cell(p).len() == 7,
    {
        assert(cells_of(self.cells).contains_key(p));
    }

    /// An empty map of `width` by `height` by `length` voxels.
    pub fn new(width: i32, height: i32, length: i32) -> (r: GridMap)
        requires
            1 <= width <= MAX_EXTENT,
            1 <= height <= MAX_EXTENT,
            1 <= length <= MAX_EXTENT,
            width * height * length <= MAX_CELLS,
        ensures
            r.wf(),
            r.dims() == (width as int, height as int, length as int),
            r.all_empty(),
    {
        let empty = TileType::empty();
        let cells = cells_filled(width as usize, height as usize, length as usize, empty);
        let r = GridMap { cells, width, height, length };
        assert forall|p: Pos| r.in_bounds(p) implies cell_empty(#[trigger] r.cell(p)) by {
            assert(r.cell(p) == empty@);
        }
        r
    }

    pub fn width(&self) -> (r: i32)
        ensures
            r == self.dims().0,
    {
        self.width
    }

    pub fn height(&self) -> (r: i32)
        ensures
            r == self.dims().1,
    {
        self.height
    }

    pub fn length(&self) -> (r: i32)
        ensures
            r == self.dims().2,
    {
        self.length
    }

    /// The lowest voxel of the map.
    pub fn min(&self) -> (r: IVec3)
        ensures
            r@ == (0int, 0int, 0int),
    {
        IVec3::new(0, 0, 0)
    }

    /// The highest voxel of the map.
    pub fn max(&self) -> (r: IVec3)
        requires
            self.wf(),
        ensures
            r@ == (self.dims().0 - 1, self.dims().1 - 1, self.dims().2 - 1),
    {
        IVec3::new(self.width - 1, self.height - 1, self.length - 1)
    }

    /// The voxel lies outside the map.
    pub fn position_oob(&self, position: IVec3) -> (r: bool)
        requires
            self.wf(),
        ensures
            r == !self.in_bounds(position@),
    {
        let min = self.min();
        let max = self.max();
        position.x < min.x || position.y < min.y || position.z < min.z || position.x > max.x
            || position.y > max.y || position.z > max.z
    }

    /// The cell record of an in-bounds voxel.
    pub fn at(&self, position: IVec3) -> (r: Cell)
        requires
            self.wf(),
            self.in_bounds(position@),
        ensures
            r@ == self.cell(position@),
    {
        cells_get(&self.cells, position.x as usize, position.y as usize, position.z as usize)
    }

    /// Some surface occupies the in-bounds voxel.
    pub fn position_collides(&self, position: IVec3) -> (r: bool)
        requires
            self.wf(),
            self.in_bounds(position@),
        ensures
            r == self.occupied(position@),
    {
        let c = self.at(position);
        proof {
            self.lemma_cell_len(position@);
        }
        let mut i: usize = 0;
        while i < 7
            invariant
                i <= 7,
                c@ == self.cell(position@),
                c@.len() == 7,
                forall|j: int| 0 <= j < i ==> #[trigger] c@[j].is_none(),
            decreases 7 - i,
        {
            if c[i].is_some() {
                assert(!c@[i as int].is_none());
                return true;
            }
            i += 1;
        }
        false
    }

    /// Replaces the cell record of an in-bounds voxel.
    fn put(&mut self, position: IVec3, c: Cell)
        requires
            old(self).wf(),
            old(self).in_bounds(position@),
        ensures
            final(self).wf(),
            final(self).same_except(*old(self), position@),
            final(self).cell(position@) == c@,
    {
        cells_set(&mut self.cells, position.x as usize, position.y as usize, position.z as usize, c);
    }
}

impl Default for GridMap {
    /// The map of 80 by 10 by 40 voxels, all empty.
    fn default() -> (r: GridMap)
        ensures
            r.wf(),
            r.dims() == (80int, 10int, 40int),
            r.all_empty(),
    {
        GridMap::new(80, 10, 40)
    }
}

/// Asks for every surface at `position` to be removed, then empties its cell.
pub fn clear_position(commands: &mut Commands, map: &mut GridMap, position: IVec3)
    requires
        old(map).wf(),
        old(map).in_bounds(position@),
    ensures
        final(map).wf(),
        final(map).same_except(*old(map), position@),
        final(map).cell(position@) == empty_cell(),
        final(commands).queue@ == old(commands).queue@ + despawns(old(map).cell(position@), 7),
        final(commands).next_handle == old(commands).next_handle,
{
    let c = map.at(position);
    proof {
        map.lemma_cell_len(position@);
    }
    let mut i: usize = 0;
    while i < 7
        invariant
            i <= 7,
            c@ == map.cell(position@),
            c@.len() == 7,
            commands.queue@ == old(commands).queue@ + despawns(c@, i as int),
            commands.next_handle == old(commands).next_handle,
        decreases 7 - i,
    {
        if let Some(h) = c[i] {
            commands.queue.push(SurfaceCommand::Despawn { handle: h });
        }
        proof {
            assert(despawns(c@, i + 1) == despawns(c@, i as int) + match c@[i as int] {
                Some(h) => seq![SurfaceCommand::Despawn { handle: h }],
                None => Seq::<SurfaceCommand>::empty(),
            });
        }
        i += 1;
    }
    map.put(position, TileType::empty());
}

/// Asks for the surface in one slot of `position` to be removed, then empties the slot.
pub fn clear_tile(commands: &mut Commands, map: &mut GridMap, tile_type: TileType, position: IVec3)
    requires
        old(map).wf(),
        old(map).in_bounds(position@),
    ensures
        final(map).wf(),
        final(map).same_except(*old(map), position@),
        final(map).cell(position@) == old(map).cell(position@).update(slot_of(tile_type), None),
        final(commands).queue@ == old(commands).queue@ + match old(map).cell(
            position@,
        )[slot_of(tile_type)] {
            Some(h) => seq![SurfaceCommand::Despawn { handle: h }],
            None => Seq::empty(),
        },
        final(commands).next_handle == old(commands).next_handle,
{
    let mut c = map.at(position);
    let s = tile_type.slot();
    if let Some(h) = c[s] {
        commands.queue.push(SurfaceCommand::Despawn { handle: h });
    }
    c[s] = None;
    map.put(position, c);
}

/// Asks for `tile` to be placed in one slot of `position`, under a fresh handle,
/// and records that handle in the slot.
pub fn spawn_tile(
    commands: &mut Commands,
    map: &mut GridMap,
    tile: Tile,
    tile_type: TileType,
    position: IVec3,
)
    requires
        old(map).wf(),
        old(map).in_bounds(position@),
    ensures
        final(map).wf(),
        final(map).same_except(*old(map), position@),
        final(map).cell(position@) == old(map).cell(position@).update(
            slot_of(tile_type),
            Some(old(commands).next_handle),
        ),
        final(commands).queue@ == old(commands).queue@.push(
            SurfaceCommand::Spawn {
                handle: old(commands).next_handle,
                tile,
                orientation: tile_type,
                position,
            },
        ),
        final(commands).next_handle == old(commands).next_handle.wrapping_add(1),
{
    let handle = commands.next_handle;
    commands.queue.push(SurfaceCommand::Spawn { handle, tile, orientation: tile_type, position });
    commands.next_handle = handle.wrapping_add(1);
    let mut c = map.at(position);
    c[tile_type.slot()] = Some(handle);
    map.put(position, c);
}

/// Voxel `p` comes before `(x, y, z)` when sweeping x fastest, then y, then z.
pub open spec fn swept_before(p: Pos, x: int, y: int, z: int) -> bool {
    p.2 < z || (p.2 == z && (p.1 < y || (p.1 == y && p.0 < x)))
}

/// Every surface of cell `c` has a despawn command in `queue`.
pub open spec fn despawned(c: Seq<Option<u64>>, queue: Seq<SurfaceCommand>) -> bool {
    forall|s: int|
        0 <= s < 7 && (#[trigger] c[s]) is Some ==> queue.contains(
            SurfaceCommand::Despawn { handle: c[s].unwrap() },
        )
}

/// The despawn commands of a cell cover each of its surfaces.
pub proof fn lemma_despawns_cover(c: Seq<Option<u64>>, n: int, s: int)
    requires
        0 <= s < n <= c.len(),
        c[s] is Some,
    ensures
        despawns(c, n).contains(SurfaceCommand::Despawn { handle: c[s].unwrap() }),
    decreases n,
{
    let d = SurfaceCommand::Despawn { handle: c[s].unwrap() };
    let prev = despawns(c, n - 1);
    let tail = match c[n - 1] {
        Some(h) => seq![SurfaceCommand::Despawn { handle: h }],
        None => Seq::<SurfaceCommand>::empty(),
    };
    assert(despawns(c, n) == prev + tail);
    if s == n - 1 {
        assert((prev + tail)[prev.len() as int] == d);
    } else {
        lemma_despawns_cover(c, n - 1, s);
        let k = choose|k: int| 0 <= k < prev.len() && prev[k] == d;
        assert((prev + tail)[k] == d);
    }
}

/// The despawn commands of a cell are despawn commands only.
pub proof fn lemma_despawns_only(c: Seq<Option<u64>>, n: int)
    ensures
        forall|k: int| 0 <= k < despawns(c, n).len() ==> (#[trigger] despawns(c, n)[k]) is Despawn,
    decreases n,
{
    if n > 0 {
        lemma_despawns_only(c, n - 1);
        let prev = despawns(c, n - 1);
        let tail = match c[n - 1] {
            Some(h) => seq![SurfaceCommand::Despawn { handle: h }],
            None => Seq::<SurfaceCommand>::empty(),
        };
        assert(despawns(c, n) == prev + tail);
        assert forall|k: int| 0 <= k < despawns(c, n).len() implies (#[trigger] despawns(c, n)[k]) is Despawn by {
            if k < prev.len() {
                assert((prev + tail)[k] == prev[k]);
            }
        }
    }
}

/// Clearing a cell queues a despawn for each of its surfaces.
pub proof fn lemma_cleared_covers(c: Seq<Option<u64>>, q0: Seq<SurfaceCommand>)
    requires
        c.len() == 7,
    ensures
        despawned(c, q0 + despawns(c, 7)),
{
    let extra = despawns(c, 7);
    assert forall|s: int| 0 <= s < 7 && (#[trigger] c[s]) is Some implies (q0 + extra).contains(
        SurfaceCommand::Despawn { handle: c[s].unwrap() },
    ) by {
        lemma_despawns_cover(c, 7, s);
        let k = choose|k: int| 0 <= k < extra.len() && extra[k] == SurfaceCommand::Despawn { handle: c[s].unwrap() };
        assert((q0 + extra)[q0.len() + k] == extra[k]);
    }
}

/// Appending commands keeps every despawn already queued.
pub proof fn lemma_despawned_grow(c: Seq<Option<u64>>, q: Seq<SurfaceCommand>, extra: Seq<SurfaceCommand>)
    requires
        despawned(c, q),
    ensures
        despawned(c, q + extra),
{
    assert forall|s: int| 0 <= s < 7 && (#[trigger] c[s]) is Some implies (q + extra).contains(
        SurfaceCommand::Despawn { handle: c[s].unwrap() },
    ) by {
        let k = choose|k: int| 0 <= k < q.len() && q[k] == SurfaceCommand::Despawn { handle: c[s].unwrap() };
        assert((q + extra)[k] == q[k]);
    }
}

/// Clears every voxel of the map, asking for all its surfaces to be removed:
/// every surface handle of the old map gets a despawn command.
pub fn clear_all(commands: &mut Commands, map: &mut GridMap)
    requires
        old(map).wf(),
    ensures
        final(map).wf(),
        final(map).dims() == old(map).dims(),
        final(map).all_empty(),
        forall|p: Pos| #[trigger] old(map).in_bounds(p) ==> despawned(old(map).cell(p), final(commands).queue@),
{
    let width = map.width();
    let height = map.height();
    let length = map.length();
    let ghost dims = map.dims();
    let ghost m0 = *map;
    let mut z: i32 = 0;
    while z < length
        invariant
            map.wf(),
            m0.wf(),
            map.dims() == dims,
            m0.dims() == dims,
            dims == (width as int, height as int, length as int),
            0 <= z <= length,
            forall|p: Pos| #[trigger] swept_before(p, 0, 0, z as int) && map.in_bounds(p) ==> cell_empty(map.cell(p))
                && despawned(m0.cell(p), commands.queue@),
            forall|p: Pos|
                !(map.in_bounds(p) && swept_before(p, 0, 0, z as int)) ==> #[trigger] map.cell(p)
                    == m0.cell(p),
        decreases length - z,
    {
        let mut y: i32 = 0;
        while y < height
            invariant
                map.wf(),
                m0.wf(),
                map.dims() == dims,
                m0.dims() == dims,
                dims == (width as int, height as int, length as int),
                0 <= z < length,
                0 <= y <= height,
                forall|p: Pos| #[trigger] swept_before(p, 0, y as int, z as int) && map.in_bounds(p)
                    ==> cell_empty(map.cell(p)) && despawned(m0.cell(p), commands.queue@),
                forall|p: Pos|
                    !(map.in_bounds(p) && swept_before(p, 0, y as int, z as int)) ==> #[trigger] map.cell(p)
                        == m0.cell(p),
            decreases height - y,
        {
            let mut x: i32 = 0;
            while x < width
                invariant
                    map.wf(),
                    m0.wf(),
                    map.dims() == dims,
                    m0.dims() == dims,
                    dims == (width as int, height as int, length as int),
                    0 <= z < length,
                    0 <= y < height,
                    0 <= x <= width,
                    forall|p: Pos| #[trigger] swept_before(p, x as int, y as int, z as int) && map.in_bounds(p)
                        ==> cell_empty(map.cell(p)) && despawned(m0.cell(p), commands.queue@),
                    forall|p: Pos|
                        !(map.in_bounds(p) && swept_before(p, x as int, y as int, z as int))
                            ==> #[trigger] map.cell(p) == m0.cell(p),
                decreases width - x,
            {
                let position = IVec3::new(x, y, z);
                let ghost q0 = commands.queue@;
                let ghost before = *map;
                clear_position(commands, map, position);
                proof {
                    let c = m0.cell(position@);
                    let extra = despawns(c, 7);
                    assert(before.cell(position@) == c);
                    m0.lemma_cell_len(position@);
                    assert(commands.queue@ == q0 + extra);
                    assert forall|p: Pos| #[trigger] swept_before(p, x + 1, y as int, z as int) && map.in_bounds(p)
                        implies cell_empty(map.cell(p)) && despawned(m0.cell(p), commands.queue@) by {
                        if p == position@ {
                            assert forall|s: int| 0 <= s < 7 && (#[trigger] c[s]) is Some implies commands.queue@.contains(
                                SurfaceCommand::Despawn { handle: c[s].unwrap() },
                            ) by {
                                lemma_despawns_cover(c, 7, s);
                                let k = choose|k: int| 0 <= k < extra.len() && extra[k] == SurfaceCommand::Despawn { handle: c[s].unwrap() };
                                assert(commands.queue@[q0.len() + k] == extra[k]);
                            }
                        } else {
                            assert(swept_before(p, x as int, y as int, z as int));
                            assert(cell_empty(before.cell(p)) && despawned(m0.cell(p), q0));
                            lemma_despawned_grow(m0.cell(p), q0, extra);
                        }
                    }
                }
                x += 1;
            }
            proof {
                assert forall|p: Pos| #[trigger] swept_before(p, 0, y + 1, z as int) && map.in_bounds(p)
                    implies cell_empty(map.cell(p)) && despawned(m0.cell(p), commands.queue@) by {
                    assert(swept_before(p, width as int, y as int, z as int));
                }
            }
            y += 1;
        }
        proof {
            assert forall|p: Pos| #[trigger] swept_before(p, 0, 0, z + 1) && map.in_bounds(p)
                implies cell_empty(map.cell(p)) && despawned(m0.cell(p), commands.queue@) by {
                assert(swept_before(p, 0, height as int, z as int));
            }
        }
        z += 1;
    }
    proof {
        assert forall|p: Pos| #[trigger] m0.in_bounds(p) implies despawned(m0.cell(p), commands.queue@) by {
            assert(swept_before(p, 0, 0, length as int));
        }
        assert forall|p: Pos| map.in_bounds(p) implies cell_empty(#[trigger] map.cell(p)) by {
            assert(swept_before(p, 0, 0, length as int));
        }
    }
}

} // verus!
