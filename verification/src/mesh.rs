//! Greedy meshing: turning a chunk of voxels into a compact set of quads.
//!
//! A naive mesher emits one quad per visible block face. Greedy meshing instead
//! merges adjacent, coplanar faces that share the same material (and the same
//! corner shading and light) into a single large quad.
//!
//! The algorithm sweeps each of the three axes, builds a 2D face mask for each
//! slice, then greedily grows maximal rectangles over equal mask entries.
//! Faces are split into an opaque layer (face-culled cubes) and a transparent
//! layer (water, leaves, glass); small plants become crossed billboards.
//!
//! The mesher here produces the integer description of every quad (plane,
//! rectangle, block, corner occlusion and light); turning a quad into GPU
//! vertices is a fixed per-quad expansion done by the renderer.

use crate::block::{resolve, Block, BlockId, BlockRegistry, RenderKind};
use crate::chunk::ChunkStorage;
use crate::coords::{local_index, LocalPos};
use vstd::prelude::*;

verus! {

/// Edge length of the light grid: a chunk plus a one-cell border ring.
pub const LIGHT_DIM: i32 = 34;

/// Number of cells in the light grid.
pub const LIGHT_CELLS: usize = 39304;

/// Whether a chunk-local cell lies in the light grid (`-1..=32` per axis).
pub open spec fn light_in_range(x: int, y: int, z: int) -> bool {
    -1 <= x <= 32 && -1 <= y <= 32 && -1 <= z <= 32
}

/// The light-grid slot of a chunk-local cell.
pub open spec fn light_cell(x: int, y: int, z: int) -> int {
    (x + 1) + (y + 1) * 34 + (z + 1) * 1156
}

proof fn lemma_light_cell_injective(a: int, b: int, c: int, x: int, y: int, z: int)
    requires
        light_in_range(a, b, c),
        light_in_range(x, y, z),
        light_cell(a, b, c) == light_cell(x, y, z),
    ensures
        a == x && b == y && c == z,
{
    assert(c == z) by (nonlinear_arith)
        requires
            -1 <= a <= 32, -1 <= b <= 32, -1 <= x <= 32, -1 <= y <= 32,
            (a + 1) + (b + 1) * 34 + (c + 1) * 1156 == (x + 1) + (y + 1) * 34 + (z + 1) * 1156,
    ;
    assert(b == y);
}

/// Baked per-cell light for a chunk and its one-block border ring (so the
/// mesher can read the light of the air cell each face opens onto). Stores sky
/// and block light (0..15) for local coordinates in `-1..=CHUNK_SIZE`.
#[derive(Clone)]
pub struct ChunkLight {
    sky: Vec<u8>,
    block: Vec<u8>,
}

impl ChunkLight {
    /// Both grids hold one entry per light cell.
    pub closed spec fn wf(&self) -> bool {
        self.sky@.len() == LIGHT_CELLS && self.block@.len() == LIGHT_CELLS
    }

    /// Sky light, slot by slot.
    pub closed spec fn sky_spec(&self) -> Seq<u8> {
        self.sky@
    }

    /// Block light, slot by slot.
    pub closed spec fn block_spec(&self) -> Seq<u8> {
        self.block@
    }

    /// The light of every cell, as a function of its local coordinates.
    pub open spec fn light_fn(&self) -> spec_fn(int, int, int) -> (u8, u8) {
        |x: int, y: int, z: int| self.light_at(x, y, z)
    }

    /// Light `(sky, block)` at a local cell; out-of-range reads as full sky.
    pub open spec fn light_at(&self, x: int, y: int, z: int) -> (u8, u8) {
        if light_in_range(x, y, z) {
            (self.sky_spec()[light_cell(x, y, z)], self.block_spec()[light_cell(x, y, z)])
        } else {
            (15u8, 0u8)
        }
    }

    /// All cells fully sky-lit, no block light: the default for unlit meshing.
    pub fn full_bright() -> (r: Self)
        ensures
            r.wf(),
            forall|x: int, y: int, z: int| #[trigger] r.light_at(x, y, z) == (15u8, 0u8),
    {
        ChunkLight { sky: vec![15u8; LIGHT_CELLS], block: vec![0u8; LIGHT_CELLS] }
    }

    /// All cells dark (the base when baking).
    pub fn dark() -> (r: Self)
        ensures
            r.wf(),
            forall|x: int, y: int, z: int|
                light_in_range(x, y, z) ==> #[trigger] r.light_at(x, y, z) == (0u8, 0u8),
    {
        ChunkLight { sky: vec![0u8; LIGHT_CELLS], block: vec![0u8; LIGHT_CELLS] }
    }

    fn index(x: i32, y: i32, z: i32) -> (r: Option<usize>)
        ensures
            r == (if light_in_range(x as int, y as int, z as int) {
                Some(light_cell(x as int, y as int, z as int) as usize)
            } else {
                None
            }),
            r matches Some(i) ==> i < LIGHT_CELLS,
    {
        if x < -1 || y < -1 || z < -1 || x > 32 || y > 32 || z > 32 {
            return None;
        }
        Some(((x + 1) + (y + 1) * LIGHT_DIM + (z + 1) * LIGHT_DIM * LIGHT_DIM) as usize)
    }

    /// Set the light at a local cell (`-1..=CHUNK_SIZE`); other cells, and
    /// any write outside the grid, change nothing.
    pub fn set(&mut self, x: i32, y: i32, z: i32, sky: u8, block: u8)
        requires
            old(self).wf(),
        ensures
            final(self).wf(),
            forall|a: int, b: int, c: int|
                #[trigger] final(self).light_at(a, b, c) == (if a == x && b == y && c == z
                    && light_in_range(a, b, c) {
                    (sky, block)
                } else {
                    old(self).light_at(a, b, c)
                }),
    {
        if let Some(i) = Self::index(x, y, z) {
            self.sky.set(i, sky);
            self.block.set(i, block);
        }
        proof {
            assert forall|a: int, b: int, c: int|
                #[trigger] self.light_at(a, b, c) == (if a == x && b == y && c == z
                    && light_in_range(a, b, c) {
                    (sky, block)
                } else {
                    old(self).light_at(a, b, c)
                }) by {
                if light_in_range(a, b, c) && light_in_range(x as int, y as int, z as int)
                    && light_cell(a, b, c) == light_cell(x as int, y as int, z as int) {
                    lemma_light_cell_injective(a, b, c, x as int, y as int, z as int);
                }
            }
        }
    }

    /// Light `(sky, block)` at a local cell; out-of-range reads as full sky.
    pub fn get(&self, x: i32, y: i32, z: i32) -> (r: (u8, u8))
        requires
            self.wf(),
        ensures
            r == self.light_at(x as int, y as int, z as int),
    {
        match Self::index(x, y, z) {
            Some(i) => (self.sky[i], self.block[i]),
            None => (15, 0),
        }
    }
}

/// Provides block ids for the chunk being meshed. Coordinates are chunk-local
/// but may extend one block past either edge (`-1 ..= CHUNK_SIZE`) so the mesher
/// can cull faces against blocks in neighbouring chunks.
pub trait BlockSampler {
    /// Whether the sampler is ready to answer queries.
    spec fn sampler_wf(&self) -> bool;

    /// The block the sampler reports at a chunk-local position.
    spec fn sample(&self, x: int, y: int, z: int) -> BlockId;

    /// The block at a chunk-local position, one block past either edge at
    /// most.
    fn block_at(&self, x: i32, y: i32, z: i32) -> (r: BlockId)
        requires
            self.sampler_wf(),
            -1 <= x <= 32,
            -1 <= y <= 32,
            -1 <= z <= 32,
        ensures
            r == self.sample(x as int, y as int, z as int),
    ;
}

/// Convenience sampler backed by a single [`ChunkStorage`]: every position
/// outside the chunk reads as air.
pub struct IsolatedChunkSampler<'a> {
    pub storage: &'a ChunkStorage,
}

impl<'a> BlockSampler for IsolatedChunkSampler<'a> {
    open spec fn sampler_wf(&self) -> bool {
        self.storage.wf()
    }

    open spec fn sample(&self, x: int, y: int, z: int) -> BlockId {
        if 0 <= x < 32 && 0 <= y < 32 && 0 <= z < 32 {
            self.storage@[local_index(x, y, z)]
        } else {
            BlockId(0)
        }
    }

    fn block_at(&self, x: i32, y: i32, z: i32) -> (r: BlockId) {
        if x < 0 || y < 0 || z < 0 || x >= 32 || y >= 32 || z >= 32 {
            return BlockId::AIR();
        }
        self.storage.get(LocalPos::new(x as u8, y as u8, z as u8))
    }
}

/// Which geometry layer a pass produces.
#[derive(Clone, Copy, PartialEq, Eq, Structural, Debug)]
pub enum Layer {
    Opaque,
    Transparent,
}

/// Four per-corner values, ordered `[(-u,-v), (+u,-v), (+u,+v), (-u,+v)]`.
#[derive(Clone, Copy, PartialEq, Eq, Structural, Debug)]
pub struct Corners {
    pub c0: u8,
    pub c1: u8,
    pub c2: u8,
    pub c3: u8,
}

/// Light `(sky, block)` at one face corner.
#[derive(Clone, Copy, PartialEq, Eq, Structural, Debug)]
pub struct CornerLight {
    pub sky: u8,
    pub block: u8,
}

/// Light at the four face corners, in the same order as [`Corners`].
#[derive(Clone, Copy, PartialEq, Eq, Structural, Debug)]
pub struct LightCorners {
    pub l0: CornerLight,
    pub l1: CornerLight,
    pub l2: CornerLight,
    pub l3: CornerLight,
}

/// Identifies a face for greedy-merge equality: same block, same facing, and
/// the same four-corner ambient-occlusion and light pattern.
#[derive(Clone, Copy, PartialEq, Eq, Structural, Debug)]
pub struct FaceKey {
    pub block: BlockId,
    pub positive: bool,
    /// Corner occlusion 0..3 (0 = darkest crevice, 3 = fully open).
    pub ao: Corners,
    /// Smoothed `(sky, block)` light at the four corners.
    pub light: LightCorners,
}

/// One merged face: the rectangle `[i, i + w) × [j, j + h)` on the plane
/// `plane` across axis `axis`, in the (u, v) coordinates of that axis, where
/// `u = (axis + 1) % 3` and `v = (axis + 2) % 3`.
#[derive(Clone, Copy, PartialEq, Eq, Structural, Debug)]
pub struct Quad {
    pub key: FaceKey,
    pub axis: usize,
    pub plane: i32,
    pub i: i32,
    pub j: i32,
    pub w: i32,
    pub h: i32,
}

/// A crossed-quad plant cell with the light of its own cell.
#[derive(Clone, Copy, PartialEq, Eq, Structural, Debug)]
pub struct CrossPlant {
    pub x: i32,
    pub y: i32,
    pub z: i32,
    pub block: BlockId,
    pub sky: u8,
    pub light: u8,
}

/// The chunk-local position with `along` on axis `d`, `i` on axis
/// `(d + 1) % 3` and `j` on axis `(d + 2) % 3`.
pub open spec fn pos3(d: int, along: int, i: int, j: int) -> (int, int, int) {
    if d == 0 {
        (along, i, j)
    } else if d == 1 {
        (j, along, i)
    } else {
        (i, j, along)
    }
}

fn place(d: usize, along: i32, i: i32, j: i32) -> (r: (i32, i32, i32))
    requires
        d < 3,
    ensures
        (r.0 as int, r.1 as int, r.2 as int) == pos3(d as int, along as int, i as int, j as int),
{
    if d == 0 {
        (along, i, j)
    } else if d == 1 {
        (j, along, i)
    } else {
        (i, j, along)
    }
}

/// The block a sampler reports at a position.
pub open spec fn sample_at<S: BlockSampler>(s: &S, p: (int, int, int)) -> BlockId {
    s.sample(p.0, p.1, p.2)
}

/// Whether the face between voxels `a` (lower along the axis) and `b`
/// (higher) is emitted in `layer`, with the block it belongs to and whether
/// it faces the positive direction.
pub open spec fn face_between_spec(reg: Seq<Block>, layer: Layer, a: BlockId, b: BlockId) -> Option<
    (BlockId, bool),
> {
    let ba = resolve(reg, a);
    let bb = resolve(reg, b);
    let oa = ba.render == RenderKind::OpaqueCube;
    let ob = bb.render == RenderKind::OpaqueCube;
    let ca = ba.render == RenderKind::OpaqueCube || ba.render == RenderKind::TransparentCube
        || ba.render == RenderKind::Fluid;
    let cb = bb.render == RenderKind::OpaqueCube || bb.render == RenderKind::TransparentCube
        || bb.render == RenderKind::Fluid;
    match layer {
        Layer::Opaque => {
            if oa && !ob {
                Some((a, true))
            } else if ob && !oa {
                Some((b, false))
            } else {
                None
            }
        },
        Layer::Transparent => {
            if ca && !oa && a != b && !ob {
                Some((a, true))
            } else if cb && !ob && a != b && !oa {
                Some((b, false))
            } else {
                None
            }
        },
    }
}

fn face_between(reg: &BlockRegistry, layer: Layer, a: BlockId, b: BlockId) -> (r: Option<
    (BlockId, bool),
>)
    requires
        reg@.len() > 0,
    ensures
        r == face_between_spec(reg@, layer, a, b),
{
    let ba = reg.get(a);
    let bb = reg.get(b);
    match layer {
        Layer::Opaque => {
            if ba.occludes() && !bb.occludes() {
                Some((a, true))
            } else if bb.occludes() && !ba.occludes() {
                Some((b, false))
            } else {
                None
            }
        },
        Layer::Transparent => {
            let a_t = ba.is_cube() && !ba.occludes();
            let b_t = bb.is_cube() && !bb.occludes();
            if a_t && a != b && !bb.occludes() {
                Some((a, true))
            } else if b_t && a != b && !ba.occludes() {
                Some((b, false))
            } else {
                None
            }
        },
    }
}

/// Classic vertex ambient occlusion: two fully-occluding edge neighbours
/// darken hardest; otherwise subtract the count of occluding neighbours.
pub open spec fn ao_value_spec(side1: u8, side2: u8, corner: u8) -> u8 {
    if side1 == 1 && side2 == 1 {
        0
    } else {
        (3 - (side1 + side2 + corner)) as u8
    }
}

fn ao_value(side1: u8, side2: u8, corner: u8) -> (r: u8)
    requires
        side1 <= 1,
        side2 <= 1,
        corner <= 1,
    ensures
        r == ao_value_spec(side1, side2, corner),
        r <= 3,
{
    if side1 == 1 && side2 == 1 {
        0
    } else {
        3 - (side1 + side2 + corner)
    }
}

/// The layer a face opens onto: `slice + 1` for positive faces, `slice` for
/// negative ones.
pub open spec fn outer_layer(slice: int, positive: bool) -> int {
    if positive {
        slice + 1
    } else {
        slice
    }
}

/// `1` where the cell at offset `(ou, ov)` on the outer layer occludes.
pub open spec fn occ_spec<S: BlockSampler>(
    s: &S,
    reg: Seq<Block>,
    d: int,
    outer: int,
    i: int,
    j: int,
    ou: int,
    ov: int,
) -> u8 {
    if resolve(reg, sample_at(s, pos3(d, outer, i + ou, j + ov))).render == RenderKind::OpaqueCube {
        1
    } else {
        0
    }
}

/// Four-corner ambient occlusion of the face at `(i, j)` of slice `slice`.
pub open spec fn ao_spec<S: BlockSampler>(
    s: &S,
    reg: Seq<Block>,
    d: int,
    slice: int,
    i: int,
    j: int,
    positive: bool,
) -> Corners {
    let o = outer_layer(slice, positive);
    Corners {
        c0: ao_value_spec(
            occ_spec(s, reg, d, o, i, j, -1, 0),
            occ_spec(s, reg, d, o, i, j, 0, -1),
            occ_spec(s, reg, d, o, i, j, -1, -1),
        ),
        c1: ao_value_spec(
            occ_spec(s, reg, d, o, i, j, 1, 0),
            occ_spec(s, reg, d, o, i, j, 0, -1),
            occ_spec(s, reg, d, o, i, j, 1, -1),
        ),
        c2: ao_value_spec(
            occ_spec(s, reg, d, o, i, j, 1, 0),
            occ_spec(s, reg, d, o, i, j, 0, 1),
            occ_spec(s, reg, d, o, i, j, 1, 1),
        ),
        c3: ao_value_spec(
            occ_spec(s, reg, d, o, i, j, -1, 0),
            occ_spec(s, reg, d, o, i, j, 0, 1),
            occ_spec(s, reg, d, o, i, j, -1, 1),
        ),
    }
}

fn occ<S: BlockSampler>(
    s: &S,
    reg: &BlockRegistry,
    d: usize,
    outer: i32,
    i: i32,
    j: i32,
    ou: i32,
    ov: i32,
) -> (r: u8)
    requires
        s.sampler_wf(),
        reg@.len() > 0,
        d < 3,
        -1 <= outer <= 32,
        0 <= i < 32,
        0 <= j < 32,
        -1 <= ou <= 1,
        -1 <= ov <= 1,
    ensures
        r == occ_spec(s, reg@, d as int, outer as int, i as int, j as int, ou as int, ov as int),
        r <= 1,
{
    let p = place(d, outer, i + ou, j + ov);
    if reg.get(s.block_at(p.0, p.1, p.2)).occludes() {
        1
    } else {
        0
    }
}

/// Compute four-corner ambient occlusion for a face: occluders are sampled
/// in the layer the face opens into.
fn compute_ao<S: BlockSampler>(
    s: &S,
    reg: &BlockRegistry,
    d: usize,
    slice: i32,
    i: i32,
    j: i32,
    positive: bool,
) -> (r: Corners)
    requires
        s.sampler_wf(),
        reg@.len() > 0,
        d < 3,
        -1 <= slice < 32,
        0 <= i < 32,
        0 <= j < 32,
    ensures
        r == ao_spec(s, reg@, d as int, slice as int, i as int, j as int, positive),
{
    let o = if positive {
        slice + 1
    } else {
        slice
    };
    let c0 = ao_value(occ(s, reg, d, o, i, j, -1, 0), occ(s, reg, d, o, i, j, 0, -1), occ(s, reg, d, o, i, j, -1, -1));
    let c1 = ao_value(occ(s, reg, d, o, i, j, 1, 0), occ(s, reg, d, o, i, j, 0, -1), occ(s, reg, d, o, i, j, 1, -1));
    let c2 = ao_value(occ(s, reg, d, o, i, j, 1, 0), occ(s, reg, d, o, i, j, 0, 1), occ(s, reg, d, o, i, j, 1, 1));
    let c3 = ao_value(occ(s, reg, d, o, i, j, -1, 0), occ(s, reg, d, o, i, j, 0, 1), occ(s, reg, d, o, i, j, -1, 1));
    Corners { c0, c1, c2, c3 }
}

/// The light of the cell at offset `(ou, ov)` on the outer layer.
pub open spec fn light_sample(
    lf: spec_fn(int, int, int) -> (u8, u8),
    d: int,
    outer: int,
    i: int,
    j: int,
    ou: int,
    ov: int,
) -> (u8, u8) {
    let p = pos3(d, outer, i + ou, j + ov);
    lf(p.0, p.1, p.2)
}

/// The average light of the 2×2 cells around the corner in direction
/// `(su, sv)`.
pub open spec fn corner_light_spec(
    lf: spec_fn(int, int, int) -> (u8, u8),
    d: int,
    outer: int,
    i: int,
    j: int,
    su: int,
    sv: int,
) -> CornerLight {
    let a = light_sample(lf, d, outer, i, j, 0, 0);
    let b = light_sample(lf, d, outer, i, j, su, 0);
    let c = light_sample(lf, d, outer, i, j, 0, sv);
    let e = light_sample(lf, d, outer, i, j, su, sv);
    CornerLight {
        sky: ((a.0 + b.0 + c.0 + e.0) / 4) as u8,
        block: ((a.1 + b.1 + c.1 + e.1) / 4) as u8,
    }
}

/// Smooth lighting of the face at `(i, j)` of slice `slice`.
pub open spec fn light_spec(
    lf: spec_fn(int, int, int) -> (u8, u8),
    d: int,
    slice: int,
    i: int,
    j: int,
    positive: bool,
) -> LightCorners {
    let o = outer_layer(slice, positive);
    LightCorners {
        l0: corner_light_spec(lf, d, o, i, j, -1, -1),
        l1: corner_light_spec(lf, d, o, i, j, 1, -1),
        l2: corner_light_spec(lf, d, o, i, j, 1, 1),
        l3: corner_light_spec(lf, d, o, i, j, -1, 1),
    }
}

fn sample_light(light: &ChunkLight, d: usize, outer: i32, i: i32, j: i32, ou: i32, ov: i32) -> (r: (
    u16,
    u16,
))
    requires
        light.wf(),
        d < 3,
        -2 <= outer <= 33,
        -1 <= i <= 32,
        -1 <= j <= 32,
        -1 <= ou <= 1,
        -1 <= ov <= 1,
    ensures
        r.0 == light_sample(light.light_fn(), d as int, outer as int, i as int, j as int, ou as int, ov as int).0,
        r.1 == light_sample(light.light_fn(), d as int, outer as int, i as int, j as int, ou as int, ov as int).1,
{
    let p = place(d, outer, i + ou, j + ov);
    let (s, b) = light.get(p.0, p.1, p.2);
    (s as u16, b as u16)
}

fn corner_light(light: &ChunkLight, d: usize, outer: i32, i: i32, j: i32, su: i32, sv: i32) -> (r:
    CornerLight)
    requires
        light.wf(),
        d < 3,
        -2 <= outer <= 33,
        0 <= i < 32,
        0 <= j < 32,
        su == -1 || su == 1,
        sv == -1 || sv == 1,
    ensures
        r == corner_light_spec(light.light_fn(), d as int, outer as int, i as int, j as int, su as int, sv as int),
{
    let a = sample_light(light, d, outer, i, j, 0, 0);
    let b = sample_light(light, d, outer, i, j, su, 0);
    let c = sample_light(light, d, outer, i, j, 0, sv);
    let e = sample_light(light, d, outer, i, j, su, sv);
    let sky = (a.0 + b.0 + c.0 + e.0) / 4;
    let blk = (a.1 + b.1 + c.1 + e.1) / 4;
    CornerLight { sky: sky as u8, block: blk as u8 }
}

/// Smooth lighting: for each of the four face corners, average the
/// `(sky, block)` light of the cells touching that corner on the open side.
fn compute_light(light: &ChunkLight, d: usize, slice: i32, i: i32, j: i32, positive: bool) -> (r:
    LightCorners)
    requires
        light.wf(),
        d < 3,
        -1 <= slice <= 32,
        0 <= i < 32,
        0 <= j < 32,
    ensures
        r == light_spec(light.light_fn(), d as int, slice as int, i as int, j as int, positive),
{
    let o = if positive {
        slice + 1
    } else {
        slice
    };
    LightCorners {
        l0: corner_light(light, d, o, i, j, -1, -1),
        l1: corner_light(light, d, o, i, j, 1, -1),
        l2: corner_light(light, d, o, i, j, 1, 1),
        l3: corner_light(light, d, o, i, j, -1, 1),
    }
}

// ---------------------------------------------------------------------------
// Greedy rectangle cover of one 32×32 face mask.

/// Slot of mask cell `(i, j)`: row-major with `i` fastest.
pub open spec fn slot(i: int, j: int) -> int {
    i + j * 32
}

/// Whether `(i, j)` is a cell of the 32×32 mask.
pub open spec fn in_board(i: int, j: int) -> bool {
    0 <= i < 32 && 0 <= j < 32
}

/// Whether a quad's rectangle contains mask cell `(i, j)`.
pub open spec fn quad_covers(q: Quad, i: int, j: int) -> bool {
    q.i <= i < q.i + q.w && q.j <= j < q.j + q.h
}

/// Whether some quad of `qs` contains mask cell `(i, j)`.
pub open spec fn covered_by(qs: Seq<Quad>, i: int, j: int) -> bool {
    exists|k: int| 0 <= k < qs.len() && #[trigger] quad_covers(qs[k], i, j)
}

/// What is left of mask `m` at `(i, j)` once the quads `qs` are taken out.
pub open spec fn pending(m: Seq<Option<FaceKey>>, qs: Seq<Quad>, i: int, j: int) -> Option<FaceKey> {
    if covered_by(qs, i, j) {
        None
    } else {
        m[slot(i, j)]
    }
}

/// The row just above a quad.
pub open spec fn next_row(q: Quad) -> int {
    q.j + q.h
}

/// `q` is the rectangle the greedy sweep takes next from mask `m` after the
/// quads `prior`: it starts at the first pending cell in row-major order,
/// holds only pending cells of its key, is as wide as the row allows, and
/// then as tall as whole rows of that width allow.
pub open spec fn greedy_step(m: Seq<Option<FaceKey>>, prior: Seq<Quad>, q: Quad) -> bool {
    &&& 0 <= q.i && 1 <= q.w && q.i + q.w <= 32
    &&& 0 <= q.j && 1 <= q.h && q.j + q.h <= 32
    &&& forall|a: int, b: int| #[trigger] quad_covers(q, a, b) ==> pending(m, prior, a, b) == Some(q.key)
    &&& forall|a: int, b: int|
        in_board(a, b) && slot(a, b) < slot(q.i as int, q.j as int) ==> #[trigger] pending(m, prior, a, b) is None
    &&& q.i + q.w == 32 || pending(m, prior, q.i + q.w, q.j as int) != Some(q.key)
    &&& next_row(q) == 32 || exists|a: int|
        q.i <= a < q.i + q.w && #[trigger] pending(m, prior, a, next_row(q)) != Some(q.key)
}

/// `qs` is exactly what the greedy sweep emits for mask `m`: each quad is the
/// next greedy rectangle after the ones before it, and together they cover
/// every face of the mask.
pub open spec fn greedy_cover(m: Seq<Option<FaceKey>>, qs: Seq<Quad>) -> bool {
    &&& forall|k: int| 0 <= k < qs.len() ==> greedy_step(m, qs.take(k), #[trigger] qs[k])
    &&& forall|a: int, b: int| in_board(a, b) ==> #[trigger] pending(m, qs, a, b) is None
}

/// A greedy cover of a face mask is an exact partition of its faces: every
/// quad lies on faces of its own key, no two quads overlap, every face of the
/// mask lies in some quad, and no quad reaches a cell without a face.
pub proof fn lemma_greedy_cover_partitions(m: Seq<Option<FaceKey>>, qs: Seq<Quad>)
    requires
        m.len() == 1024,
        greedy_cover(m, qs),
    ensures
        forall|k: int, a: int, b: int|
            0 <= k < qs.len() && #[trigger] quad_covers(qs[k], a, b) ==> in_board(a, b)
                && m[slot(a, b)] == Some(qs[k].key),
        forall|k1: int, k2: int, a: int, b: int|
            0 <= k1 < k2 < qs.len() ==> !(#[trigger] quad_covers(qs[k1], a, b)
                && #[trigger] quad_covers(qs[k2], a, b)),
        forall|a: int, b: int| in_board(a, b) ==> (#[trigger] covered_by(qs, a, b) <==> m[slot(a, b)] is Some),
{
    assert forall|k: int, a: int, b: int|
        0 <= k < qs.len() && #[trigger] quad_covers(qs[k], a, b) implies in_board(a, b)
            && m[slot(a, b)] == Some(qs[k].key) by {
        assert(greedy_step(m, qs.take(k), qs[k]));
        assert(pending(m, qs.take(k), a, b) == Some(qs[k].key));
    }
    assert forall|k1: int, k2: int, a: int, b: int|
        0 <= k1 < k2 < qs.len() implies !(#[trigger] quad_covers(qs[k1], a, b)
            && #[trigger] quad_covers(qs[k2], a, b)) by {
        if quad_covers(qs[k1], a, b) && quad_covers(qs[k2], a, b) {
            assert(greedy_step(m, qs.take(k2), qs[k2]));
            assert(qs.take(k2)[k1] == qs[k1]);
            assert(covered_by(qs.take(k2), a, b));
            assert(pending(m, qs.take(k2), a, b) == Some(qs[k2].key));
        }
    }
    assert forall|a: int, b: int| in_board(a, b) implies (#[trigger] covered_by(qs, a, b)
        <==> m[slot(a, b)] is Some) by {
        assert(pending(m, qs, a, b) is None);
        if covered_by(qs, a, b) {
            let k = choose|k: int| 0 <= k < qs.len() && #[trigger] quad_covers(qs[k], a, b);
            assert(greedy_step(m, qs.take(k), qs[k]));
            assert(pending(m, qs.take(k), a, b) == Some(qs[k].key));
        }
    }
}

/// Two quads span the same rectangle.
pub open spec fn same_rect(a: Quad, b: Quad) -> bool {
    a.i == b.i && a.j == b.j && a.w == b.w && a.h == b.h
}

/// Quads with the same rectangles, entry by entry, cover the same cells.
proof fn lemma_same_rects_cover(q1: Seq<Quad>, q2: Seq<Quad>, a: int, b: int)
    requires
        q1.len() == q2.len(),
        forall|k: int| 0 <= k < q1.len() ==> same_rect(#[trigger] q1[k], q2[k]),
    ensures
        covered_by(q1, a, b) == covered_by(q2, a, b),
{
    if covered_by(q1, a, b) {
        let k = choose|k: int| 0 <= k < q1.len() && #[trigger] quad_covers(q1[k], a, b);
        assert(same_rect(q1[k], q2[k]));
        assert(quad_covers(q2[k], a, b));
    }
    if covered_by(q2, a, b) {
        let k = choose|k: int| 0 <= k < q2.len() && #[trigger] quad_covers(q2[k], a, b);
        assert(same_rect(q1[k], q2[k]));
        assert(quad_covers(q1[k], a, b));
    }
}

/// After quads that leave the same cells pending, the greedy sweep's next
/// rectangle and key are determined.
proof fn lemma_greedy_step_unique(m: Seq<Option<FaceKey>>, p1: Seq<Quad>, p2: Seq<Quad>, q: Quad, r: Quad)
    requires
        forall|a: int, b: int|
            #![trigger pending(m, p1, a, b)]
            #![trigger pending(m, p2, a, b)]
            pending(m, p1, a, b) == pending(m, p2, a, b),
        greedy_step(m, p1, q),
        greedy_step(m, p2, r),
    ensures
        same_rect(q, r),
        q.key == r.key,
{
    assert(quad_covers(q, q.i as int, q.j as int));
    assert(quad_covers(r, r.i as int, r.j as int));
    assert(pending(m, p1, q.i as int, q.j as int) == Some(q.key));
    assert(pending(m, p2, r.i as int, r.j as int) == Some(r.key));
    assert(pending(m, p1, r.i as int, r.j as int) == Some(r.key));
    assert(pending(m, p2, q.i as int, q.j as int) == Some(q.key));
    if slot(q.i as int, q.j as int) < slot(r.i as int, r.j as int) {
        assert(in_board(q.i as int, q.j as int));
        assert(pending(m, p2, q.i as int, q.j as int) is None);
    }
    if slot(r.i as int, r.j as int) < slot(q.i as int, q.j as int) {
        assert(in_board(r.i as int, r.j as int));
        assert(pending(m, p1, r.i as int, r.j as int) is None);
    }
    assert(q.i == r.i && q.j == r.j);
    assert(q.key == r.key);
    if q.w < r.w {
        assert(quad_covers(r, q.i + q.w, q.j as int));
        assert(pending(m, p2, q.i + q.w, q.j as int) == Some(r.key));
        assert(pending(m, p1, q.i + q.w, q.j as int) == Some(r.key));
    }
    if r.w < q.w {
        assert(quad_covers(q, r.i + r.w, r.j as int));
        assert(pending(m, p1, r.i + r.w, r.j as int) == Some(q.key));
        assert(pending(m, p2, r.i + r.w, r.j as int) == Some(q.key));
    }
    assert(q.w == r.w);
    if q.h < r.h {
        let a = choose|a: int| q.i <= a < q.i + q.w && #[trigger] pending(m, p1, a, next_row(q)) != Some(q.key);
        assert(quad_covers(r, a, next_row(q)));
        assert(pending(m, p2, a, next_row(q)) == Some(r.key));
    }
    if r.h < q.h {
        let a = choose|a: int| r.i <= a < r.i + r.w && #[trigger] pending(m, p2, a, next_row(r)) != Some(r.key);
        assert(quad_covers(q, a, next_row(r)));
        assert(pending(m, p1, a, next_row(r)) == Some(q.key));
    }
}

proof fn lemma_greedy_prefixes_agree(m: Seq<Option<FaceKey>>, q1: Seq<Quad>, q2: Seq<Quad>, n: int)
    requires
        greedy_cover(m, q1),
        greedy_cover(m, q2),
        0 <= n <= q1.len(),
        n <= q2.len(),
    ensures
        forall|k: int| 0 <= k < n ==> same_rect(#[trigger] q1[k], q2[k]) && q1[k].key == q2[k].key,
    decreases n,
{
    if n > 0 {
        let j = n - 1;
        lemma_greedy_prefixes_agree(m, q1, q2, j);
        let p1 = q1.take(j);
        let p2 = q2.take(j);
        assert forall|k: int| 0 <= k < p1.len() implies same_rect(#[trigger] p1[k], p2[k]) by {
            assert(p1[k] == q1[k] && p2[k] == q2[k]);
        }
        assert forall|a: int, b: int|
            #![trigger pending(m, p1, a, b)]
            #![trigger pending(m, p2, a, b)]
            pending(m, p1, a, b) == pending(m, p2, a, b) by {
            lemma_same_rects_cover(p1, p2, a, b);
        }
        assert(greedy_step(m, p1, q1[j]));
        assert(greedy_step(m, p2, q2[j]));
        lemma_greedy_step_unique(m, p1, p2, q1[j], q2[j]);
    }
}

/// The greedy cover of a face mask is unique: any two quad sequences that
/// are greedy covers of the same mask have the same length and, entry by
/// entry, the same rectangles and face keys.
pub proof fn lemma_greedy_cover_unique(m: Seq<Option<FaceKey>>, q1: Seq<Quad>, q2: Seq<Quad>)
    requires
        greedy_cover(m, q1),
        greedy_cover(m, q2),
    ensures
        q1.len() == q2.len(),
        forall|k: int| 0 <= k < q1.len() ==> same_rect(#[trigger] q1[k], q2[k]) && q1[k].key == q2[k].key,
{
    lemma_greedy_cover_len(m, q1, q2);
    lemma_greedy_cover_len(m, q2, q1);
    lemma_greedy_prefixes_agree(m, q1, q2, q1.len() as int);
}

/// A greedy cover is never shorter than another of the same mask.
proof fn lemma_greedy_cover_len(m: Seq<Option<FaceKey>>, q1: Seq<Quad>, q2: Seq<Quad>)
    requires
        greedy_cover(m, q1),
        greedy_cover(m, q2),
    ensures
        q2.len() <= q1.len(),
{
    if q1.len() < q2.len() {
        let n = q1.len() as int;
        lemma_greedy_prefixes_agree(m, q1, q2, n);
        let p2 = q2.take(n);
        assert forall|k: int| 0 <= k < q1.len() implies same_rect(#[trigger] q1[k], p2[k]) by {
            assert(p2[k] == q2[k]);
        }
        let q = q2[n];
        assert(greedy_step(m, p2, q));
        assert(quad_covers(q, q.i as int, q.j as int));
        assert(pending(m, p2, q.i as int, q.j as int) == Some(q.key));
        lemma_same_rects_cover(q1, p2, q.i as int, q.j as int);
        assert(in_board(q.i as int, q.j as int));
        assert(pending(m, q1, q.i as int, q.j as int) is None);
    }
}

proof fn lemma_covered_push(qs: Seq<Quad>, q: Quad, a: int, b: int)
    ensures
        covered_by(qs.push(q), a, b) == (covered_by(qs, a, b) || quad_covers(q, a, b)),
{
    if covered_by(qs, a, b) {
        let k = choose|k: int| 0 <= k < qs.len() && #[trigger] quad_covers(qs[k], a, b);
        assert(qs.push(q)[k] == qs[k]);
    }
    if quad_covers(q, a, b) {
        assert(qs.push(q)[qs.len() as int] == q);
    }
    if covered_by(qs.push(q), a, b) {
        let k = choose|k: int| 0 <= k < qs.len() + 1 && #[trigger] quad_covers(qs.push(q)[k], a, b);
        if k < qs.len() {
            assert(qs.push(q)[k] == qs[k]);
        }
    }
}

/// Widen a run along the row from its first cell.
fn grow_width(mask: &Vec<Option<FaceKey>>, i: i32, j: i32, key: FaceKey) -> (w: i32)
    requires
        mask@.len() == 1024,
        in_board(i as int, j as int),
        mask@[slot(i as int, j as int)] == Some(key),
    ensures
        1 <= w,
        i + w <= 32,
        forall|a: int| i <= a < i + w ==> #[trigger] mask@[slot(a, j as int)] == Some(key),
        i + w == 32 || mask@[slot(i + w, j as int)] != Some(key),
{
    let n = (i + j * 32) as usize;
    let mut w: i32 = 1;
    while i + w < 32 && mask[n + w as usize] == Some(key)
        invariant
            mask@.len() == 1024,
            in_board(i as int, j as int),
            n == slot(i as int, j as int),
            1 <= w,
            i + w <= 32,
            forall|a: int| i <= a < i + w ==> #[trigger] mask@[slot(a, j as int)] == Some(key),
        decreases 32 - w,
    {
        w += 1;
    }
    w
}

/// Whether the `w` cells of row `b` from column `i` all hold `key`.
fn row_matches(mask: &Vec<Option<FaceKey>>, i: i32, b: i32, w: i32, key: FaceKey) -> (r: bool)
    requires
        mask@.len() == 1024,
        0 <= i,
        1 <= w,
        i + w <= 32,
        0 <= b < 32,
    ensures
        r == (forall|a: int| i <= a < i + w ==> #[trigger] mask@[slot(a, b as int)] == Some(key)),
{
    let mut k: i32 = 0;
    while k < w
        invariant
            mask@.len() == 1024,
            0 <= i,
            0 <= k <= w,
            i + w <= 32,
            0 <= b < 32,
            forall|a: int| i <= a < i + k ==> #[trigger] mask@[slot(a, b as int)] == Some(key),
        decreases w - k,
    {
        if mask[(i + k + b * 32) as usize] != Some(key) {
            assert(mask@[slot(i + k, b as int)] != Some(key));
            return false;
        }
        k += 1;
    }
    true
}

/// Grow a run of width `w` upward by whole rows.
fn grow_height(mask: &Vec<Option<FaceKey>>, i: i32, j: i32, w: i32, key: FaceKey) -> (h: i32)
    requires
        mask@.len() == 1024,
        0 <= i,
        1 <= w,
        i + w <= 32,
        0 <= j < 32,
        forall|a: int| i <= a < i + w ==> #[trigger] mask@[slot(a, j as int)] == Some(key),
    ensures
        1 <= h,
        j + h <= 32,
        forall|a: int, b: int|
            i <= a < i + w && j <= b < j + h ==> #[trigger] mask@[slot(a, b)] == Some(key),
        j + h == 32 || exists|a: int|
            i <= a < i + w && #[trigger] mask@[slot(a, j + h)] != Some(key),
{
    let mut h: i32 = 1;
    while j + h < 32 && row_matches(mask, i, j + h, w, key)
        invariant
            mask@.len() == 1024,
            0 <= i,
            1 <= w,
            i + w <= 32,
            0 <= j < 32,
            1 <= h,
            j + h <= 32,
            forall|a: int, b: int|
                i <= a < i + w && j <= b < j + h ==> #[trigger] mask@[slot(a, b)] == Some(key),
        decreases 32 - h,
    {
        proof {
            assert forall|a: int, b: int|
                i <= a < i + w && j <= b < j + h + 1 implies #[trigger] mask@[slot(a, b)] == Some(key) by {
                if b == j + h {
                    assert(mask@[slot(a, j + h)] == Some(key));
                }
            }
        }
        h += 1;
    }
    h
}

/// Take the rectangle `[i, i + w) × [j, j + h)` out of the mask.
fn clear_rect(mask: &mut Vec<Option<FaceKey>>, i: i32, j: i32, w: i32, h: i32)
    requires
        old(mask)@.len() == 1024,
        0 <= i,
        1 <= w,
        i + w <= 32,
        0 <= j,
        1 <= h,
        j + h <= 32,
    ensures
        final(mask)@.len() == 1024,
        forall|a: int, b: int|
            in_board(a, b) ==> #[trigger] final(mask)@[slot(a, b)] == (if i <= a < i + w && j <= b
                < j + h {
                None
            } else {
                old(mask)@[slot(a, b)]
            }),
{
    let ghost m0 = mask@;
    let mut l: i32 = 0;
    while l < h
        invariant
            mask@.len() == 1024,
            0 <= i,
            1 <= w,
            i + w <= 32,
            0 <= j,
            1 <= h,
            j + h <= 32,
            0 <= l <= h,
            forall|a: int, b: int|
                in_board(a, b) ==> #[trigger] mask@[slot(a, b)] == (if i <= a < i + w && j <= b < j
                    + l {
                    None
                } else {
                    m0[slot(a, b)]
                }),
        decreases h - l,
    {
        let mut k: i32 = 0;
        while k < w
            invariant
                mask@.len() == 1024,
                0 <= i,
                1 <= w,
                i + w <= 32,
                0 <= j,
                j + h <= 32,
                0 <= l < h,
                0 <= k <= w,
                forall|a: int, b: int|
                    in_board(a, b) ==> #[trigger] mask@[slot(a, b)] == (if (i <= a < i + w && j <= b
                        < j + l) || (i <= a < i + k && b == j + l) {
                        None
                    } else {
                        m0[slot(a, b)]
                    }),
            decreases w - k,
        {
            let t = (i + k + (j + l) * 32) as usize;
            mask.set(t, None);
            proof {
                assert forall|a: int, b: int| in_board(a, b) implies #[trigger] mask@[slot(a, b)]
                    == (if (i <= a < i + w && j <= b < j + l) || (i <= a < i + k + 1 && b == j
                    + l) {
                    None
                } else {
                    m0[slot(a, b)]
                }) by {
                    if slot(a, b) == t {
                        assert(a == i + k && b == j + l);
                    }
                }
            }
            k += 1;
        }
        l += 1;
    }
}

/// Greedily cover one slice's face mask with maximal rectangles, emitting a
/// quad per rectangle on `plane` across `axis`. The mask is left empty.
fn greedy_slice(mask: &mut Vec<Option<FaceKey>>, axis: usize, plane: i32) -> (qs: Vec<Quad>)
    requires
        old(mask)@.len() == 1024,
    ensures
        final(mask)@.len() == 1024,
        greedy_cover(old(mask)@, qs@),
        forall|k: int| 0 <= k < qs@.len() ==> (#[trigger] qs@[k]).axis == axis && qs@[k].plane == plane,
{
    let ghost m0 = mask@;
    let mut qs: Vec<Quad> = Vec::new();
    let mut j: i32 = 0;
    while j < 32
        invariant
            mask@.len() == 1024,
            m0.len() == 1024,
            0 <= j <= 32,
            forall|a: int, b: int| in_board(a, b) ==> #[trigger] mask@[slot(a, b)] == pending(m0, qs@, a, b),
            forall|a: int, b: int|
                in_board(a, b) && slot(a, b) < j * 32 ==> (#[trigger] mask@[slot(a, b)]) is None,
            forall|k: int| 0 <= k < qs@.len() ==> greedy_step(m0, qs@.take(k), #[trigger] qs@[k]),
            forall|k: int| 0 <= k < qs@.len() ==> (#[trigger] qs@[k]).axis == axis && qs@[k].plane == plane,
        decreases 32 - j,
    {
        let mut i: i32 = 0;
        while i < 32
            invariant
                mask@.len() == 1024,
                m0.len() == 1024,
                0 <= j < 32,
                0 <= i <= 32,
                forall|a: int, b: int|
                    in_board(a, b) ==> #[trigger] mask@[slot(a, b)] == pending(m0, qs@, a, b),
                forall|a: int, b: int|
                    in_board(a, b) && slot(a, b) < j * 32 + i ==> (#[trigger] mask@[slot(a, b)]) is None,
                forall|k: int| 0 <= k < qs@.len() ==> greedy_step(m0, qs@.take(k), #[trigger] qs@[k]),
                forall|k: int|
                    0 <= k < qs@.len() ==> (#[trigger] qs@[k]).axis == axis && qs@[k].plane == plane,
            decreases 32 - i,
        {
            let cell = mask[(i + j * 32) as usize];
            match cell {
                None => {
                    i += 1;
                },
                Some(key) => {
                    let w = grow_width(mask, i, j, key);
                    let h = grow_height(mask, i, j, w, key);
                    let q = Quad { key, axis, plane, i, j, w, h };
                    let ghost prior = qs@;
                    let ghost before = mask@;
                    proof {
                        assert forall|a: int, b: int| #[trigger] quad_covers(q, a, b) implies pending(
                            m0,
                            prior,
                            a,
                            b,
                        ) == Some(q.key) by {
                            assert(in_board(a, b));
                            assert(before[slot(a, b)] == Some(key));
                        }
                        assert forall|a: int, b: int|
                            in_board(a, b) && slot(a, b) < slot(q.i as int, q.j as int) implies #[trigger] pending(
                            m0,
                            prior,
                            a,
                            b,
                        ) is None by {
                            assert(before[slot(a, b)] is None);
                        }
                        if i + w < 32 {
                            assert(before[slot(i + w, j as int)] != Some(key));
                            assert(in_board(i + w, j as int));
                        }
                        if j + h < 32 {
                            let a = choose|a: int|
                                i <= a < i + w && #[trigger] before[slot(a, j + h)] != Some(key);
                            assert(in_board(a, j + h));
                            assert(pending(m0, prior, a, next_row(q)) != Some(q.key));
                        }
                        assert(greedy_step(m0, prior, q));
                    }
                    clear_rect(mask, i, j, w, h);
                    qs.push(q);
                    proof {
                        assert forall|a: int, b: int| in_board(a, b) implies #[trigger] mask@[slot(a, b)]
                            == pending(m0, qs@, a, b) by {
                            lemma_covered_push(prior, q, a, b);
                        }
                        assert forall|k: int| 0 <= k < qs@.len() implies greedy_step(
                            m0,
                            qs@.take(k),
                            #[trigger] qs@[k],
                        ) by {
                            if k < prior.len() {
                                assert(qs@.take(k) =~= prior.take(k));
                            } else {
                                assert(qs@.take(k) =~= prior);
                            }
                        }
                    }
                    i += w;
                },
            }
        }
        j += 1;
    }
    proof {
        assert forall|a: int, b: int| in_board(a, b) implies #[trigger] pending(m0, qs@, a, b) is None by {
            assert(mask@[slot(a, b)] is None);
        }
    }
    qs
}

// ---------------------------------------------------------------------------
// Sweeping the chunk: masks per slice, greedy passes, crossed plants.

/// The face at mask cell `(i, j)` of slice `slice` across axis `d`: the
/// face between the voxel on the slice and the one above it, if this layer
/// draws it.
pub open spec fn face_key_spec<S: BlockSampler>(
    s: &S,
    reg: Seq<Block>,
    lf: spec_fn(int, int, int) -> (u8, u8),
    layer: Layer,
    d: int,
    slice: int,
    i: int,
    j: int,
) -> Option<FaceKey> {
    let a = sample_at(s, pos3(d, slice, i, j));
    let b = sample_at(s, pos3(d, slice + 1, i, j));
    match face_between_spec(reg, layer, a, b) {
        Some(f) => Some(
            FaceKey {
                block: f.0,
                positive: f.1,
                ao: if layer == Layer::Opaque {
                    ao_spec(s, reg, d, slice, i, j, f.1)
                } else {
                    Corners { c0: 3, c1: 3, c2: 3, c3: 3 }
                },
                light: light_spec(lf, d, slice, i, j, f.1),
            },
        ),
        None => None,
    }
}

/// The face mask of slice `slice` across axis `d`, slot by slot.
pub open spec fn slice_mask<S: BlockSampler>(
    s: &S,
    reg: Seq<Block>,
    lf: spec_fn(int, int, int) -> (u8, u8),
    layer: Layer,
    d: int,
    slice: int,
) -> Seq<Option<FaceKey>> {
    Seq::new(1024, |n: int| face_key_spec(s, reg, lf, layer, d, slice, n % 32, n / 32))
}

// ---------------------------------------------------------------------------
// What a face of the mask is, stated cell by cell.

/// The render kind of the block a sampler reports at `pos3(d, along, i, j)`.
pub open spec fn render_at<S: BlockSampler>(s: &S, reg: Seq<Block>, d: int, along: int, i: int, j: int) -> RenderKind {
    resolve(reg, s.sample(pos3(d, along, i, j).0, pos3(d, along, i, j).1, pos3(d, along, i, j).2)).render
}

/// `1` where the cell at `pos3(d, along, i, j)` is an opaque cube.
pub open spec fn opaque_at<S: BlockSampler>(s: &S, reg: Seq<Block>, d: int, along: int, i: int, j: int) -> int {
    if render_at(s, reg, d, along, i, j) == RenderKind::OpaqueCube {
        1
    } else {
        0
    }
}

/// The light function at `pos3(d, along, i, j)`.
pub open spec fn lit_at(lf: spec_fn(int, int, int) -> (u8, u8), d: int, along: int, i: int, j: int) -> (u8, u8) {
    lf(pos3(d, along, i, j).0, pos3(d, along, i, j).1, pos3(d, along, i, j).2)
}

/// Corner light `c` is the integer mean of the four cells `(i, j)`,
/// `(i + su, j)`, `(i, j + sv)` and `(i + su, j + sv)` of layer `along`.
pub open spec fn mean_corner(
    c: CornerLight,
    lf: spec_fn(int, int, int) -> (u8, u8),
    d: int,
    along: int,
    i: int,
    j: int,
    su: int,
    sv: int,
) -> bool {
    let a = lit_at(lf, d, along, i, j);
    let b = lit_at(lf, d, along, i + su, j);
    let e = lit_at(lf, d, along, i, j + sv);
    let f = lit_at(lf, d, along, i + su, j + sv);
    &&& c.sky as int == (a.0 + b.0 + e.0 + f.0) / 4
    &&& c.block as int == (a.1 + b.1 + e.1 + f.1) / 4
}

/// Occlusion value `v` of a corner with edge neighbours `s1`, `s2` and
/// diagonal neighbour `c` (each `1` where opaque): `0` when both edges are
/// opaque, otherwise `3` minus the number of opaque neighbours.
pub open spec fn occlusion_is(v: u8, s1: int, s2: int, c: int) -> bool {
    if s1 == 1 && s2 == 1 {
        v == 0
    } else {
        v as int == 3 - s1 - s2 - c
    }
}

/// The face of mask cell `(i, j)` of slice `slice` across axis `d`, between
/// the cell `lo` on the slice and the cell `hi` above it:
/// * no face separates two cells of the same block;
/// * the opaque layer has a face exactly where one side is an opaque cube
///   and the other is not; it belongs to the opaque side and faces away
///   from it;
/// * the transparent layer has a face exactly where the blocks differ,
///   neither is an opaque cube, and one is a see-through cube or fluid; it
///   belongs to that side (the lower one when both are);
/// * each corner's light is the integer mean of the four cells touching
///   that corner in the layer the face opens onto;
/// * in the opaque layer each corner's occlusion counts the opaque cells
///   around it in that layer; transparent faces are unoccluded.
#[verifier::spinoff_prover]
pub proof fn lemma_face_of_cell<S: BlockSampler>(
    s: &S,
    reg: Seq<Block>,
    lf: spec_fn(int, int, int) -> (u8, u8),
    layer: Layer,
    d: int,
    slice: int,
    i: int,
    j: int,
)
    requires
        0 <= i < 32,
        0 <= j < 32,
    ensures
        ({
            let lo = s.sample(pos3(d, slice, i, j).0, pos3(d, slice, i, j).1, pos3(d, slice, i, j).2);
            let hi = s.sample(pos3(d, slice + 1, i, j).0, pos3(d, slice + 1, i, j).1, pos3(d, slice + 1, i, j).2);
            let rlo = render_at(s, reg, d, slice, i, j);
            let rhi = render_at(s, reg, d, slice + 1, i, j);
            let see_lo = rlo == RenderKind::TransparentCube || rlo == RenderKind::Fluid;
            let see_hi = rhi == RenderKind::TransparentCube || rhi == RenderKind::Fluid;
            let m = slice_mask(s, reg, lf, layer, d, slice)[slot(i, j)];
            &&& lo == hi ==> m is None
            &&& layer == Layer::Opaque ==> (m is Some <==> (rlo == RenderKind::OpaqueCube) != (rhi
                == RenderKind::OpaqueCube))
            &&& layer == Layer::Transparent ==> (m is Some <==> (lo != hi && rlo != RenderKind::OpaqueCube
                && rhi != RenderKind::OpaqueCube && (see_lo || see_hi)))
            &&& m matches Some(k) ==> {
                let o = if k.positive {
                    slice + 1
                } else {
                    slice
                };
                &&& layer == Layer::Opaque ==> k.positive == (rlo == RenderKind::OpaqueCube)
                &&& layer == Layer::Transparent ==> k.positive == see_lo
                &&& k.block == (if k.positive {
                    lo
                } else {
                    hi
                })
                &&& mean_corner(k.light.l0, lf, d, o, i, j, -1, -1)
                &&& mean_corner(k.light.l1, lf, d, o, i, j, 1, -1)
                &&& mean_corner(k.light.l2, lf, d, o, i, j, 1, 1)
                &&& mean_corner(k.light.l3, lf, d, o, i, j, -1, 1)
                &&& layer == Layer::Opaque ==> {
                    &&& occlusion_is(
                        k.ao.c0,
                        opaque_at(s, reg, d, o, i - 1, j),
                        opaque_at(s, reg, d, o, i, j - 1),
                        opaque_at(s, reg, d, o, i - 1, j - 1),
                    )
                    &&& occlusion_is(
                        k.ao.c1,
                        opaque_at(s, reg, d, o, i + 1, j),
                        opaque_at(s, reg, d, o, i, j - 1),
                        opaque_at(s, reg, d, o, i + 1, j - 1),
                    )
                    &&& occlusion_is(
                        k.ao.c2,
                        opaque_at(s, reg, d, o, i + 1, j),
                        opaque_at(s, reg, d, o, i, j + 1),
                        opaque_at(s, reg, d, o, i + 1, j + 1),
                    )
                    &&& occlusion_is(
                        k.ao.c3,
                        opaque_at(s, reg, d, o, i - 1, j),
                        opaque_at(s, reg, d, o, i, j + 1),
                        opaque_at(s, reg, d, o, i - 1, j + 1),
                    )
                }
                &&& layer == Layer::Transparent ==> k.ao == (Corners { c0: 3, c1: 3, c2: 3, c3: 3 })
            }
        }),
{
    lemma_mask_slot(s, reg, lf, layer, d, slice, i, j);
    let lo = s.sample(pos3(d, slice, i, j).0, pos3(d, slice, i, j).1, pos3(d, slice, i, j).2);
    let hi = s.sample(pos3(d, slice + 1, i, j).0, pos3(d, slice + 1, i, j).1, pos3(d, slice + 1, i, j).2);
    lemma_face_rule(reg, layer, lo, hi);
    lemma_light_means(lf, d, slice, i, j, true);
    lemma_light_means(lf, d, slice, i, j, false);
    lemma_ao_counts(s, reg, d, slice, i, j, true);
    lemma_ao_counts(s, reg, d, slice, i, j, false);
}

proof fn lemma_mask_slot<S: BlockSampler>(
    s: &S,
    reg: Seq<Block>,
    lf: spec_fn(int, int, int) -> (u8, u8),
    layer: Layer,
    d: int,
    slice: int,
    i: int,
    j: int,
)
    requires
        0 <= i < 32,
        0 <= j < 32,
    ensures
        slice_mask(s, reg, lf, layer, d, slice)[slot(i, j)] == face_key_spec(s, reg, lf, layer, d, slice, i, j),
{
    let n = slot(i, j);
    vstd::arithmetic::div_mod::lemma_fundamental_div_mod_converse(n, 32, j, i);
    assert(n % 32 == i && n / 32 == j);
}

/// Which faces each layer draws between a lower block `a` and an upper
/// block `b`, by their render kinds.
proof fn lemma_face_rule(reg: Seq<Block>, layer: Layer, a: BlockId, b: BlockId)
    ensures
        ({
            let ra = resolve(reg, a).render;
            let rb = resolve(reg, b).render;
            let see_a = ra == RenderKind::TransparentCube || ra == RenderKind::Fluid;
            let see_b = rb == RenderKind::TransparentCube || rb == RenderKind::Fluid;
            let f = face_between_spec(reg, layer, a, b);
            &&& a == b ==> f is None
            &&& layer == Layer::Opaque ==> (f is Some <==> (ra == RenderKind::OpaqueCube) != (rb
                == RenderKind::OpaqueCube))
            &&& layer == Layer::Opaque && f is Some ==> f->0 == (if ra == RenderKind::OpaqueCube {
                (a, true)
            } else {
                (b, false)
            })
            &&& layer == Layer::Transparent ==> (f is Some <==> (a != b && ra != RenderKind::OpaqueCube
                && rb != RenderKind::OpaqueCube && (see_a || see_b)))
            &&& layer == Layer::Transparent && f is Some ==> f->0 == (if see_a {
                (a, true)
            } else {
                (b, false)
            })
        }),
{
}

/// Smooth face light averages the four cells around each corner.
proof fn lemma_light_means(lf: spec_fn(int, int, int) -> (u8, u8), d: int, slice: int, i: int, j: int, positive: bool)
    ensures
        ({
            let o = if positive {
                slice + 1
            } else {
                slice
            };
            let l = light_spec(lf, d, slice, i, j, positive);
            &&& mean_corner(l.l0, lf, d, o, i, j, -1, -1)
            &&& mean_corner(l.l1, lf, d, o, i, j, 1, -1)
            &&& mean_corner(l.l2, lf, d, o, i, j, 1, 1)
            &&& mean_corner(l.l3, lf, d, o, i, j, -1, 1)
        }),
{
}

/// Face occlusion counts the opaque cells around each corner.
proof fn lemma_ao_counts<S: BlockSampler>(
    s: &S,
    reg: Seq<Block>,
    d: int,
    slice: int,
    i: int,
    j: int,
    positive: bool,
)
    ensures
        ({
            let o = if positive {
                slice + 1
            } else {
                slice
            };
            let c = ao_spec(s, reg, d, slice, i, j, positive);
            &&& occlusion_is(
                c.c0,
                opaque_at(s, reg, d, o, i - 1, j),
                opaque_at(s, reg, d, o, i, j - 1),
                opaque_at(s, reg, d, o, i - 1, j - 1),
            )
            &&& occlusion_is(
                c.c1,
                opaque_at(s, reg, d, o, i + 1, j),
                opaque_at(s, reg, d, o, i, j - 1),
                opaque_at(s, reg, d, o, i + 1, j - 1),
            )
            &&& occlusion_is(
                c.c2,
                opaque_at(s, reg, d, o, i + 1, j),
                opaque_at(s, reg, d, o, i, j + 1),
                opaque_at(s, reg, d, o, i + 1, j + 1),
            )
            &&& occlusion_is(
                c.c3,
                opaque_at(s, reg, d, o, i - 1, j),
                opaque_at(s, reg, d, o, i, j + 1),
                opaque_at(s, reg, d, o, i - 1, j + 1),
            )
        }),
{
}

/// Every quad of a meshed layer lies on faces of the mask (see
/// [`lemma_face_of_cell`]): for each cell `(a, b)` it covers, the face
/// there is the quad's own face. So no quad sits between two cells of the
/// same block, and a quad's corner light is the mean of the four cells
/// around each corner of any cell it covers.
#[verifier::spinoff_prover]
pub proof fn lemma_quad_on_faces<S: BlockSampler>(
    s: &S,
    reg: Seq<Block>,
    lf: spec_fn(int, int, int) -> (u8, u8),
    layer: Layer,
    qs: Seq<Quad>,
    d: int,
    plane: int,
    k: int,
    a: int,
    b: int,
)
    requires
        greedy_cover(slice_mask(s, reg, lf, layer, d, plane - 1), qs),
        0 <= k < qs.len(),
        quad_covers(qs[k], a, b),
    ensures
        in_board(a, b),
        slice_mask(s, reg, lf, layer, d, plane - 1)[slot(a, b)] == Some(qs[k].key),
        s.sample(pos3(d, plane - 1, a, b).0, pos3(d, plane - 1, a, b).1, pos3(d, plane - 1, a, b).2)
            != s.sample(pos3(d, plane, a, b).0, pos3(d, plane, a, b).1, pos3(d, plane, a, b).2),
        ({
            let o = if qs[k].key.positive {
                plane
            } else {
                plane - 1
            };
            &&& mean_corner(qs[k].key.light.l0, lf, d, o, a, b, -1, -1)
            &&& mean_corner(qs[k].key.light.l1, lf, d, o, a, b, 1, -1)
            &&& mean_corner(qs[k].key.light.l2, lf, d, o, a, b, 1, 1)
            &&& mean_corner(qs[k].key.light.l3, lf, d, o, a, b, -1, 1)
        }),
{
    lemma_greedy_cover_partitions(slice_mask(s, reg, lf, layer, d, plane - 1), qs);
    lemma_face_of_cell(s, reg, lf, layer, d, plane - 1, a, b);
}

/// Quad `a` belongs to the same section as `b` or to an earlier one, in
/// axis-then-plane order.
pub open spec fn section_le(a: Quad, b: Quad) -> bool {
    a.axis < b.axis || (a.axis == b.axis && a.plane <= b.plane)
}

/// The quads come section by section, in axis-then-plane order.
pub open spec fn in_section_order(qs: Seq<Quad>) -> bool {
    forall|a: int, b: int| 0 <= a < b < qs.len() ==> #[trigger] section_le(qs[a], qs[b])
}

/// The quads of `qs` on plane `plane` across axis `d`, in order.
pub open spec fn section(qs: Seq<Quad>, d: int, plane: int) -> Seq<Quad> {
    qs.filter(|q: Quad| q.axis == d && q.plane == plane)
}

proof fn lemma_filter_every<A>(s: Seq<A>, pred: spec_fn(A) -> bool)
    requires
        forall|i: int| 0 <= i < s.len() ==> pred(#[trigger] s[i]),
    ensures
        s.filter(pred) == s,
    decreases s.len(),
{
    reveal(Seq::filter);
    if s.len() > 0 {
        let t = s.drop_last();
        assert forall|i: int| 0 <= i < t.len() implies pred(#[trigger] t[i]) by {
            assert(t[i] == s[i]);
        }
        lemma_filter_every(t, pred);
        assert(pred(s[s.len() - 1]));
        assert(t.push(s.last()) =~= s);
    }
}

proof fn lemma_filter_none<A>(s: Seq<A>, pred: spec_fn(A) -> bool)
    requires
        forall|i: int| 0 <= i < s.len() ==> !pred(#[trigger] s[i]),
    ensures
        s.filter(pred) == Seq::<A>::empty(),
    decreases s.len(),
{
    reveal(Seq::filter);
    if s.len() > 0 {
        let t = s.drop_last();
        assert forall|i: int| 0 <= i < t.len() implies !pred(#[trigger] t[i]) by {
            assert(t[i] == s[i]);
        }
        lemma_filter_none(t, pred);
        assert(!pred(s[s.len() - 1]));
    }
}

/// Fill the mask of one slice.
fn build_mask<S: BlockSampler>(
    s: &S,
    reg: &BlockRegistry,
    light: &ChunkLight,
    layer: Layer,
    d: usize,
    slice: i32,
    mask: &mut Vec<Option<FaceKey>>,
)
    requires
        s.sampler_wf(),
        reg@.len() > 0,
        light.wf(),
        d < 3,
        -1 <= slice < 32,
        old(mask)@.len() == 1024,
    ensures
        final(mask)@ == slice_mask(s, reg@, light.light_fn(), layer, d as int, slice as int),
{
    let mut j: i32 = 0;
    while j < 32
        invariant
            s.sampler_wf(),
            reg@.len() > 0,
            light.wf(),
            d < 3,
            -1 <= slice < 32,
            mask@.len() == 1024,
            0 <= j <= 32,
            forall|a: int, b: int|
                in_board(a, b) && b < j ==> #[trigger] mask@[slot(a, b)] == face_key_spec(
                    s,
                    reg@,
                    light.light_fn(),
                    layer,
                    d as int,
                    slice as int,
                    a,
                    b,
                ),
        decreases 32 - j,
    {
        let mut i: i32 = 0;
        while i < 32
            invariant
                s.sampler_wf(),
                reg@.len() > 0,
                light.wf(),
                d < 3,
                -1 <= slice < 32,
                mask@.len() == 1024,
                0 <= j < 32,
                0 <= i <= 32,
                forall|a: int, b: int|
                    in_board(a, b) && (b < j || (b == j && a < i)) ==> #[trigger] mask@[slot(a, b)]
                        == face_key_spec(s, reg@, light.light_fn(), layer, d as int, slice as int, a, b),
            decreases 32 - i,
        {
            let lo = place(d, slice, i, j);
            let hi = place(d, slice + 1, i, j);
            let a = s.block_at(lo.0, lo.1, lo.2);
            let b = s.block_at(hi.0, hi.1, hi.2);
            let face = match face_between(reg, layer, a, b) {
                Some((block, positive)) => {
                    let ao = if layer == Layer::Opaque {
                        compute_ao(s, reg, d, slice, i, j, positive)
                    } else {
                        Corners { c0: 3, c1: 3, c2: 3, c3: 3 }
                    };
                    let lt = compute_light(light, d, slice, i, j, positive);
                    Some(FaceKey { block, positive, ao, light: lt })
                },
                None => None,
            };
            let n = (i + j * 32) as usize;
            mask.set(n, face);
            proof {
                assert forall|x: int, y: int|
                    in_board(x, y) && (y < j || (y == j && x < i + 1)) implies #[trigger] mask@[slot(
                    x,
                    y,
                )] == face_key_spec(s, reg@, light.light_fn(), layer, d as int, slice as int, x, y) by {
                    if slot(x, y) == n {
                        assert(x == i && y == j);
                    }
                }
            }
            i += 1;
        }
        j += 1;
    }
    proof {
        assert forall|n: int| 0 <= n < 1024 implies #[trigger] mask@[n] == slice_mask(
            s,
            reg@,
            light.light_fn(),
            layer,
            d as int,
            slice as int,
        )[n] by {
            assert(slot(n % 32, n / 32) == n);
            assert(in_board(n % 32, n / 32));
        }
        assert(mask@ =~= slice_mask(s, reg@, light.light_fn(), layer, d as int, slice as int));
    }
}

/// Sweep all three axes and every slice (from the boundary with the
/// previous neighbour chunk up to the last layer), emitting the greedy
/// quads of each slice's mask in order.
#[verifier::spinoff_prover]
#[verifier::rlimit(60)]
pub fn greedy_pass<S: BlockSampler>(
    s: &S,
    reg: &BlockRegistry,
    light: &ChunkLight,
    layer: Layer,
) -> (out: Vec<Quad>)
    requires
        s.sampler_wf(),
        reg@.len() > 0,
        light.wf(),
    ensures
        forall|d: int, plane: int|
            0 <= d < 3 && 0 <= plane <= 32 ==> greedy_cover(
                slice_mask(s, reg@, light.light_fn(), layer, d, plane - 1),
                #[trigger] section(out@, d, plane),
            ),
        forall|k: int|
            0 <= k < out@.len() ==> (#[trigger] out@[k]).axis < 3 && 0 <= out@[k].plane <= 32,
        in_section_order(out@),
{
    let mut out: Vec<Quad> = Vec::new();
    let mut mask: Vec<Option<FaceKey>> = vec![None; 1024];
    let mut d: usize = 0;
    while d < 3
        invariant
            s.sampler_wf(),
            reg@.len() > 0,
            light.wf(),
            d <= 3,
            mask@.len() == 1024,
            forall|e: int, p: int|
                0 <= e < 3 && 0 <= p <= 32 ==> #[trigger] section(out@, e, p) == (if e < d {
                    section(out@, e, p)
                } else {
                    Seq::<Quad>::empty()
                }),
            forall|e: int, p: int|
                0 <= e < d && 0 <= p <= 32 ==> greedy_cover(
                    slice_mask(s, reg@, light.light_fn(), layer, e, p - 1),
                    #[trigger] section(out@, e, p),
                ),
            forall|k: int|
                0 <= k < out@.len() ==> (#[trigger] out@[k]).axis < d && 0 <= out@[k].plane <= 32,
            in_section_order(out@),
        decreases 3 - d,
    {
        let mut slice: i32 = -1;
        while slice < 32
            invariant
                s.sampler_wf(),
                reg@.len() > 0,
                light.wf(),
                d < 3,
                -1 <= slice <= 32,
                mask@.len() == 1024,
                forall|k: int|
                    0 <= k < out@.len() ==> (#[trigger] out@[k]).axis < d || (out@[k].axis == d
                        && 0 <= out@[k].plane <= slice),
                forall|k: int| 0 <= k < out@.len() ==> 0 <= (#[trigger] out@[k]).plane <= 32,
                in_section_order(out@),
                forall|e: int, p: int|
                    0 <= e < 3 && 0 <= p <= 32 && (e < d || (e == d && p <= slice))
                        ==> greedy_cover(
                        slice_mask(s, reg@, light.light_fn(), layer, e, p - 1),
                        #[trigger] section(out@, e, p),
                    ),
            decreases 32 - slice,
        {
            build_mask(s, reg, light, layer, d, slice, &mut mask);
            let ghost m = mask@;
            let mut local = greedy_slice(&mut mask, d, slice + 1);
            let ghost before = out@;
            let ghost added = local@;
            out.append(&mut local);
            proof {
                assert(out@ == before + added);
                assert forall|a: int, b: int| 0 <= a < b < out@.len() implies #[trigger] section_le(
                    out@[a],
                    out@[b],
                ) by {
                    if b < before.len() {
                        assert(out@[a] == before[a] && out@[b] == before[b]);
                        assert(section_le(before[a], before[b]));
                    } else if a < before.len() {
                        assert(out@[a] == before[a] && out@[b] == added[b - before.len()]);
                    } else {
                        assert(out@[a] == added[a - before.len()] && out@[b] == added[b - before.len()]);
                    }
                }
                assert forall|e: int, p: int|
                    0 <= e < 3 && 0 <= p <= 32 && (e < d || (e == d && p <= slice + 1))
                        implies greedy_cover(
                    slice_mask(s, reg@, light.light_fn(), layer, e, p - 1),
                    #[trigger] section(out@, e, p),
                ) by {
                    let pred = |q: Quad| q.axis == e && q.plane == p;
                    Seq::filter_distributes_over_add(before, added, pred);
                    if e == d && p == slice + 1 {
                        lemma_filter_every(added, pred);
                        lemma_filter_none(before, pred);
                        assert(section(out@, e, p) =~= added);
                    } else {
                        lemma_filter_none(added, pred);
                        assert(section(out@, e, p) =~= section(before, e, p));
                    }
                }
            }
            slice += 1;
        }
        proof {
            assert forall|e: int, p: int|
                0 <= e < 3 && 0 <= p <= 32 && e > d implies #[trigger] section(out@, e, p)
                == Seq::<Quad>::empty() by {
                lemma_filter_none(out@, |q: Quad| q.axis == e && q.plane == p);
            }
        }
        d += 1;
    }
    out
}

/// The plant record that cell number `c` (in `y`, then `z`, then `x` order)
/// would produce.
pub open spec fn plant_candidate<S: BlockSampler>(s: &S, lf: spec_fn(int, int, int) -> (u8, u8), c: int) -> CrossPlant {
    let y = c / 1024;
    let z = (c / 32) % 32;
    let x = c % 32;
    CrossPlant {
        x: x as i32,
        y: y as i32,
        z: z as i32,
        block: s.sample(x, y, z),
        sky: lf(x, y, z).0,
        light: lf(x, y, z).1,
    }
}

/// Whether a block is drawn as a crossed-quad plant.
pub open spec fn is_plant(reg: Seq<Block>, id: BlockId) -> bool {
    resolve(reg, id).render == RenderKind::Cross
}

/// Every crossed-quad plant cell of the chunk, in `y`, `z`, `x` order.
pub open spec fn cross_plants_spec<S: BlockSampler>(s: &S, reg: Seq<Block>, lf: spec_fn(int, int, int) -> (u8, u8)) -> Seq<
    CrossPlant,
> {
    Seq::new(32768, |c: int| plant_candidate(s, lf, c)).filter(
        |p: CrossPlant| is_plant(reg, p.block),
    )
}

/// `p` is the plant record of its own cell: an in-chunk cell holding a block
/// drawn as crossed quads, with that block and that cell's light.
pub open spec fn plant_of_cell<S: BlockSampler>(
    s: &S,
    reg: Seq<Block>,
    lf: spec_fn(int, int, int) -> (u8, u8),
    p: CrossPlant,
) -> bool {
    &&& 0 <= p.x < 32 && 0 <= p.y < 32 && 0 <= p.z < 32
    &&& p.block == s.sample(p.x as int, p.y as int, p.z as int)
    &&& resolve(reg, p.block).render == RenderKind::Cross
    &&& p.sky == lf(p.x as int, p.y as int, p.z as int).0
    &&& p.light == lf(p.x as int, p.y as int, p.z as int).1
}

/// The crossed-quad plants of a meshed chunk are exactly its plant cells:
/// every entry is the record of an in-chunk cell whose block is drawn as
/// crossed quads, lit by that cell's own light, and every such cell has an
/// entry.
#[verifier::spinoff_prover]
pub proof fn lemma_plants_are_plant_cells<S: BlockSampler>(
    s: &S,
    reg: Seq<Block>,
    lf: spec_fn(int, int, int) -> (u8, u8),
)
    ensures
        forall|k: int|
            0 <= k < cross_plants_spec(s, reg, lf).len() ==> plant_of_cell(
                s,
                reg,
                lf,
                #[trigger] cross_plants_spec(s, reg, lf)[k],
            ),
        forall|x: int, y: int, z: int|
            0 <= x < 32 && 0 <= y < 32 && 0 <= z < 32 && resolve(reg, #[trigger] s.sample(x, y, z)).render
                == RenderKind::Cross ==> cross_plants_spec(s, reg, lf).contains(
                CrossPlant {
                    x: x as i32,
                    y: y as i32,
                    z: z as i32,
                    block: s.sample(x, y, z),
                    sky: lf(x, y, z).0,
                    light: lf(x, y, z).1,
                },
            ),
{
    let cand = Seq::new(32768, |c: int| plant_candidate(s, lf, c));
    let pred = |p: CrossPlant| is_plant(reg, p.block);
    let out = cross_plants_spec(s, reg, lf);
    assert(out == cand.filter(pred));
    assert forall|k: int| 0 <= k < out.len() implies plant_of_cell(s, reg, lf, #[trigger] out[k]) by {
        cand.lemma_filter_pred(pred, k);
        cand.lemma_filter_contains_rev(pred, out[k]);
        let c = choose|c: int| 0 <= c < cand.len() && cand[c] == out[k];
        assert(0 <= c % 32 < 32 && 0 <= (c / 32) % 32 < 32 && 0 <= c / 1024 < 32) by (nonlinear_arith)
            requires
                0 <= c < 32768,
        ;
    }
    assert forall|x: int, y: int, z: int|
        0 <= x < 32 && 0 <= y < 32 && 0 <= z < 32 && resolve(reg, #[trigger] s.sample(x, y, z)).render
            == RenderKind::Cross implies out.contains(
        CrossPlant {
            x: x as i32,
            y: y as i32,
            z: z as i32,
            block: s.sample(x, y, z),
            sky: lf(x, y, z).0,
            light: lf(x, y, z).1,
        },
    ) by {
        let c = y * 1024 + z * 32 + x;
        vstd::arithmetic::div_mod::lemma_fundamental_div_mod_converse(c, 32, y * 32 + z, x);
        vstd::arithmetic::div_mod::lemma_fundamental_div_mod_converse(c, 1024, y, z * 32 + x);
        vstd::arithmetic::div_mod::lemma_fundamental_div_mod_converse(y * 32 + z, 32, y, z);
        assert(cand[c] == plant_candidate(s, lf, c));
        cand.lemma_filter_contains(pred, c);
    }
}

/// Collect the crossed-quad plants (flowers, grass, mushrooms): each becomes
/// two diagonal quads through its cell, lit by its own cell's light.
pub fn cross_pass<S: BlockSampler>(s: &S, reg: &BlockRegistry, light: &ChunkLight) -> (out: Vec<
    CrossPlant,
>)
    requires
        s.sampler_wf(),
        reg@.len() > 0,
        light.wf(),
    ensures
        out@ == cross_plants_spec(s, reg@, light.light_fn()),
{
    let ghost f = |c: int| plant_candidate(s, light.light_fn(), c);
    let ghost pred = |p: CrossPlant| is_plant(reg@, p.block);
    let mut out: Vec<CrossPlant> = Vec::new();
    let mut y: i32 = 0;
    while y < 32
        invariant
            s.sampler_wf(),
            reg@.len() > 0,
            light.wf(),
            0 <= y <= 32,
            f == (|c: int| plant_candidate(s, light.light_fn(), c)),
            pred == (|p: CrossPlant| is_plant(reg@, p.block)),
            out@ == Seq::new((y * 1024) as nat, f).filter(pred),
        decreases 32 - y,
    {
        let mut z: i32 = 0;
        while z < 32
            invariant
                s.sampler_wf(),
                reg@.len() > 0,
                light.wf(),
                0 <= y < 32,
                0 <= z <= 32,
                f == (|c: int| plant_candidate(s, light.light_fn(), c)),
                pred == (|p: CrossPlant| is_plant(reg@, p.block)),
                out@ == Seq::new((y * 1024 + z * 32) as nat, f).filter(pred),
            decreases 32 - z,
        {
            let mut x: i32 = 0;
            while x < 32
                invariant
                    s.sampler_wf(),
                    reg@.len() > 0,
                    light.wf(),
                    0 <= y < 32,
                    0 <= z < 32,
                    0 <= x <= 32,
                    f == (|c: int| plant_candidate(s, light.light_fn(), c)),
                    pred == (|p: CrossPlant| is_plant(reg@, p.block)),
                    out@ == Seq::new((y * 1024 + z * 32 + x) as nat, f).filter(pred),
                decreases 32 - x,
            {
                let ghost c = y * 1024 + z * 32 + x;
                let id = s.block_at(x, y, z);
                let (sky, blk) = light.get(x, y, z);
                let p = CrossPlant { x, y, z, block: id, sky, light: blk };
                proof {
                    assert(c / 1024 == y && (c / 32) % 32 == z && c % 32 == x) by (nonlinear_arith)
                        requires
                            c == y * 1024 + z * 32 + x,
                            0 <= x < 32,
                            0 <= y < 32,
                            0 <= z < 32,
                    ;
                    assert(f(c) == p);
                    assert(Seq::new((c + 1) as nat, f) =~= Seq::new(c as nat, f).push(f(c)));
                    Seq::new(c as nat, f).lemma_filter_push(f(c), pred);
                }
                if reg.get(id).is_cross() {
                    out.push(p);
                }
                x += 1;
            }
            z += 1;
        }
        y += 1;
    }
    out
}

/// One draw layer's geometry: greedy quads, then crossed plants (two quads
/// each).
pub struct LayerPlan {
    pub quads: Vec<Quad>,
    pub plants: Vec<CrossPlant>,
}

impl LayerPlan {
    /// Number of quads drawn: one per greedy quad, two per plant.
    pub open spec fn quad_total(&self) -> nat {
        self.quads@.len() + 2 * self.plants@.len()
    }

    pub fn is_empty(&self) -> (r: bool)
        ensures
            r == (self.quad_total() == 0),
    {
        self.quads.len() == 0 && self.plants.len() == 0
    }

    pub fn quad_count(&self) -> (r: usize)
        requires
            self.quad_total() <= usize::MAX,
        ensures
            r == self.quad_total(),
    {
        self.quads.len() + 2 * self.plants.len()
    }

    /// Vertices of the expanded geometry: four per quad.
    pub fn vertex_count(&self) -> (r: usize)
        requires
            4 * self.quad_total() <= usize::MAX,
        ensures
            r == 4 * self.quad_total(),
    {
        4 * (self.quads.len() + 2 * self.plants.len())
    }

    /// Indices of the expanded geometry: two triangles per quad.
    pub fn index_count(&self) -> (r: usize)
        requires
            6 * self.quad_total() <= usize::MAX,
        ensures
            r == 6 * self.quad_total(),
    {
        6 * (self.quads.len() + 2 * self.plants.len())
    }
}

/// Result of meshing one chunk: the opaque layer (face-culled cubes) and the
/// transparent layer (water, leaves, glass and plants).
pub struct MeshPlan {
    pub opaque: LayerPlan,
    pub transparent: LayerPlan,
}

impl MeshPlan {
    pub fn is_empty(&self) -> (r: bool)
        ensures
            r == (self.opaque.quad_total() == 0 && self.transparent.quad_total() == 0),
    {
        self.opaque.is_empty() && self.transparent.is_empty()
    }
}

/// Mesh a chunk: `s` resolves blocks (including one ring of neighbours),
/// `reg` supplies occlusion and visibility, and `light` the baked per-cell
/// sky and block light.
pub fn mesh_chunk_lit<S: BlockSampler>(s: &S, reg: &BlockRegistry, light: &ChunkLight) -> (r:
    MeshPlan)
    requires
        s.sampler_wf(),
        reg@.len() > 0,
        light.wf(),
    ensures
        forall|d: int, plane: int|
            0 <= d < 3 && 0 <= plane <= 32 ==> greedy_cover(
                slice_mask(s, reg@, light.light_fn(), Layer::Opaque, d, plane - 1),
                #[trigger] section(r.opaque.quads@, d, plane),
            ),
        forall|d: int, plane: int|
            0 <= d < 3 && 0 <= plane <= 32 ==> greedy_cover(
                slice_mask(s, reg@, light.light_fn(), Layer::Transparent, d, plane - 1),
                #[trigger] section(r.transparent.quads@, d, plane),
            ),
        forall|k: int|
            0 <= k < r.opaque.quads@.len() ==> (#[trigger] r.opaque.quads@[k]).axis < 3 && 0
                <= r.opaque.quads@[k].plane <= 32,
        forall|k: int|
            0 <= k < r.transparent.quads@.len() ==> (#[trigger] r.transparent.quads@[k]).axis < 3
                && 0 <= r.transparent.quads@[k].plane <= 32,
        r.opaque.plants@ == Seq::<CrossPlant>::empty(),
        r.transparent.plants@ == cross_plants_spec(s, reg@, light.light_fn()),
{
    let opaque = greedy_pass(s, reg, light, Layer::Opaque);
    let transparent = greedy_pass(s, reg, light, Layer::Transparent);
    let plants = cross_pass(s, reg, light);
    MeshPlan {
        opaque: LayerPlan { quads: opaque, plants: Vec::new() },
        transparent: LayerPlan { quads: transparent, plants },
    }
}

/// Full sky light and no block light everywhere.
pub open spec fn full_bright_fn() -> spec_fn(int, int, int) -> (u8, u8) {
    |x: int, y: int, z: int| (15u8, 0u8)
}

/// Mesh a chunk with full-bright lighting (no baked light).
pub fn mesh_chunk<S: BlockSampler>(s: &S, reg: &BlockRegistry) -> (r: MeshPlan)
    requires
        s.sampler_wf(),
        reg@.len() > 0,
    ensures
        forall|d: int, plane: int|
            0 <= d < 3 && 0 <= plane <= 32 ==> greedy_cover(
                slice_mask(s, reg@, full_bright_fn(), Layer::Opaque, d, plane - 1),
                #[trigger] section(r.opaque.quads@, d, plane),
            ),
        forall|d: int, plane: int|
            0 <= d < 3 && 0 <= plane <= 32 ==> greedy_cover(
                slice_mask(s, reg@, full_bright_fn(), Layer::Transparent, d, plane - 1),
                #[trigger] section(r.transparent.quads@, d, plane),
            ),
        forall|k: int|
            0 <= k < r.opaque.quads@.len() ==> (#[trigger] r.opaque.quads@[k]).axis < 3 && 0
                <= r.opaque.quads@[k].plane <= 32,
        forall|k: int|
            0 <= k < r.transparent.quads@.len() ==> (#[trigger] r.transparent.quads@[k]).axis < 3
                && 0 <= r.transparent.quads@[k].plane <= 32,
        r.opaque.plants@ == Seq::<CrossPlant>::empty(),
        r.transparent.plants@ == cross_plants_spec(s, reg@, full_bright_fn()),
{
    let light = ChunkLight::full_bright();
    proof {
        assert(light.light_fn() =~= full_bright_fn());
    }
    mesh_chunk_lit(s, reg, &light)
}

} // verus!
