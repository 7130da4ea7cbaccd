//! Infinite, deterministic terrain generation.
//!
//! Generation runs in passes per chunk:
//!
//! 1. **Terrain** — a per-column height fills solid ground, caves are carved
//!    where the cave field says so, and water floods up to sea level. Surface
//!    materials come from the column's [`Biome`]; deep stone holds ores.
//! 2. **Decoration** — trees, flowers and mushrooms are scattered using a
//!    per-column deterministic PRNG over a padded window of columns, so
//!    structures originating just outside the chunk still contribute their
//!    overhanging blocks.
//! 3. **Structures** — cosy cottages on a region grid.
//!
//! The real-valued noise fields (heights, climate, caves, ores, scatter
//! rolls) are sampled by the caller and handed in as plain values; every
//! decision and every block written is made here.

use crate::biome::{subsurface_spec, surface_spec, Biome};
use crate::block::blocks;
use crate::block::BlockId;
use crate::chunk::{lemma_view_len, ChunkStorage};
use crate::coords::{local_index, BlockPos, ChunkPos, LocalPos};
use crate::noise::{hash_coords, hash_coords_spec, mix_out, mix_step, permutation, Perlin, SplitMix64};
use vstd::prelude::*;

verus! {

/// World height of the water surface.
pub const SEA_LEVEL: i32 = 62;

/// Chunk-local x of voxel `i`.
pub open spec fn voxel_x(i: int) -> int {
    i % 32
}

/// Chunk-local y of voxel `i`.
pub open spec fn voxel_y(i: int) -> int {
    i / 1024
}

/// Chunk-local z of voxel `i`.
pub open spec fn voxel_z(i: int) -> int {
    (i / 32) % 32
}

pub(crate) proof fn lemma_voxel_coords(x: int, y: int, z: int)
    requires
        0 <= x < 32,
        0 <= y < 32,
        0 <= z < 32,
    ensures
        voxel_x(local_index(x, y, z)) == x,
        voxel_y(local_index(x, y, z)) == y,
        voxel_z(local_index(x, y, z)) == z,
        0 <= local_index(x, y, z) < 32768,
{
    let i = local_index(x, y, z);
    vstd::arithmetic::div_mod::lemma_fundamental_div_mod_converse(i, 32, z + y * 32, x);
    vstd::arithmetic::div_mod::lemma_fundamental_div_mod_converse(z + y * 32, 32, y, z);
    vstd::arithmetic::div_mod::lemma_fundamental_div_mod_converse(i, 1024, y, x + z * 32);
}

pub(crate) proof fn lemma_voxel_index(i: int)
    requires
        0 <= i < 32768,
    ensures
        0 <= voxel_x(i) < 32,
        0 <= voxel_y(i) < 32,
        0 <= voxel_z(i) < 32,
        local_index(voxel_x(i), voxel_y(i), voxel_z(i)) == i,
{
    assert(i == (i % 32) + ((i / 32) % 32) * 32 + (i / 1024) * 1024) by (nonlinear_arith)
        requires
            0 <= i,
    {
        vstd::arithmetic::div_mod::lemma_fundamental_div_mod(i, 32);
        vstd::arithmetic::div_mod::lemma_fundamental_div_mod(i / 32, 32);
        vstd::arithmetic::div_mod::lemma_div_denominator(i, 32, 32);
    }
    assert(i / 1024 < 32) by (nonlinear_arith)
        requires
            0 <= i < 32768,
    ;
}

/// A shape: the block it puts at each world position, if any.
pub open spec fn no_shape() -> spec_fn(int, int, int) -> Option<BlockId> {
    |x: int, y: int, z: int| None
}

/// The voxels of a chunk at `origin` after painting shape `f` over them:
/// where the shape has a block it replaces the voxel, if `overwrite` or the
/// voxel is air.
pub open spec fn painted(
    v: Seq<BlockId>,
    origin: BlockPos,
    f: spec_fn(int, int, int) -> Option<BlockId>,
    overwrite: bool,
) -> Seq<BlockId> {
    Seq::new(
        v.len(),
        |i: int|
            match f(origin.x + voxel_x(i), origin.y + voxel_y(i), origin.z + voxel_z(i)) {
                Some(b) => if overwrite || v[i] == BlockId(0) {
                    b
                } else {
                    v[i]
                },
                None => v[i],
            },
    )
}

/// `g` laid over `f`: where `g` has a block it wins.
pub open spec fn overlay(
    f: spec_fn(int, int, int) -> Option<BlockId>,
    g: spec_fn(int, int, int) -> Option<BlockId>,
) -> spec_fn(int, int, int) -> Option<BlockId> {
    |x: int, y: int, z: int|
        if g(x, y, z) is Some {
            g(x, y, z)
        } else {
            f(x, y, z)
        }
}

/// The shape holding one block at one world position.
pub open spec fn cell_shape(wx: int, wy: int, wz: int, block: BlockId) -> spec_fn(int, int, int) -> Option<
    BlockId,
> {
    |x: int, y: int, z: int|
        if x == wx && y == wy && z == wz {
            Some(block)
        } else {
            None
        }
}

/// Painting `f`, then a shape `g` that shares no position with it, is
/// painting the two together.
proof fn lemma_paint_disjoint(
    v: Seq<BlockId>,
    origin: BlockPos,
    f: spec_fn(int, int, int) -> Option<BlockId>,
    g: spec_fn(int, int, int) -> Option<BlockId>,
    overwrite: bool,
)
    requires
        forall|x: int, y: int, z: int| !(#[trigger] f(x, y, z) is Some && g(x, y, z) is Some),
    ensures
        painted(painted(v, origin, f, overwrite), origin, g, overwrite) == painted(
            v,
            origin,
            overlay(f, g),
            overwrite,
        ),
{
    let a = painted(painted(v, origin, f, overwrite), origin, g, overwrite);
    let b = painted(v, origin, overlay(f, g), overwrite);
    assert forall|i: int| 0 <= i < v.len() implies a[i] == b[i] by {
        let wx = origin.x + voxel_x(i);
        let wy = origin.y + voxel_y(i);
        let wz = origin.z + voxel_z(i);
        assert(!(f(wx, wy, wz) is Some && g(wx, wy, wz) is Some));
    }
    assert(a =~= b);
}

/// Painting with the empty shape changes nothing.
proof fn lemma_paint_nothing(v: Seq<BlockId>, origin: BlockPos, overwrite: bool)
    ensures
        painted(v, origin, no_shape(), overwrite) == v,
{
    assert(painted(v, origin, no_shape(), overwrite) =~= v);
}

/// Whether world position `(wx, wy, wz)` lies in the chunk at `origin`.
pub open spec fn in_chunk(origin: BlockPos, wx: int, wy: int, wz: int) -> bool {
    0 <= wx - origin.x < 32 && 0 <= wy - origin.y < 32 && 0 <= wz - origin.z < 32
}

/// Write a block at world coordinates if it falls within the chunk at
/// `origin`; `overwrite` controls whether an existing non-air block is
/// replaced.
fn stamp(
    storage: &mut ChunkStorage,
    origin: BlockPos,
    wx: i32,
    wy: i32,
    wz: i32,
    block: BlockId,
    overwrite: bool,
)
    requires
        old(storage).wf(),
    ensures
        final(storage).wf(),
        final(storage)@ == painted(
            old(storage)@,
            origin,
            cell_shape(wx as int, wy as int, wz as int, block),
            overwrite,
        ),
{
    let ghost v = storage@;
    let ghost f = cell_shape(wx as int, wy as int, wz as int, block);
    proof {
        lemma_view_len(storage);
    }
    let lx = wx as i64 - origin.x as i64;
    let ly = wy as i64 - origin.y as i64;
    let lz = wz as i64 - origin.z as i64;
    if lx < 0 || ly < 0 || lz < 0 || lx >= 32 || ly >= 32 || lz >= 32 {
        proof {
            assert forall|i: int| 0 <= i < v.len() implies painted(v, origin, f, overwrite)[i] == v[i] by {
                lemma_voxel_index(i);
            }
            assert(painted(v, origin, f, overwrite) =~= v);
        }
        return;
    }
    let lp = LocalPos::new(lx as u8, ly as u8, lz as u8);
    proof {
        lemma_voxel_coords(lx as int, ly as int, lz as int);
    }
    if !overwrite && !storage.get(lp).is_air() {
        proof {
            assert forall|i: int| 0 <= i < v.len() implies painted(v, origin, f, overwrite)[i] == v[i] by {
                lemma_voxel_index(i);
            }
            assert(painted(v, origin, f, overwrite) =~= v);
        }
        return;
    }
    storage.set(lp, block);
    proof {
        let t = local_index(lx as int, ly as int, lz as int);
        assert forall|i: int| 0 <= i < v.len() implies painted(v, origin, f, overwrite)[i]
            == v.update(t, block)[i] by {
            lemma_voxel_index(i);
            if i != t {
                if origin.x + voxel_x(i) == wx && origin.y + voxel_y(i) == wy && origin.z + voxel_z(i)
                    == wz {
                    assert(local_index(voxel_x(i), voxel_y(i), voxel_z(i)) == t);
                }
            }
        }
        assert(painted(v, origin, f, overwrite) =~= v.update(t, block));
    }
}

/// The box `[x0, x1] × [y0, y1] × [z0, z1]` filled with `block`.
pub open spec fn box_shape(
    x0: int,
    x1: int,
    y0: int,
    y1: int,
    z0: int,
    z1: int,
    block: BlockId,
) -> spec_fn(int, int, int) -> Option<BlockId> {
    |x: int, y: int, z: int|
        if x0 <= x <= x1 && y0 <= y <= y1 && z0 <= z <= z1 {
            Some(block)
        } else {
            None
        }
}

/// Stamp every position of a box, all with the same block and mode.
fn fill_box(
    storage: &mut ChunkStorage,
    origin: BlockPos,
    x0: i32,
    x1: i32,
    y0: i32,
    y1: i32,
    z0: i32,
    z1: i32,
    block: BlockId,
    overwrite: bool,
)
    requires
        old(storage).wf(),
        x0 <= x1 < i32::MAX,
        y0 <= y1 < i32::MAX,
        z0 <= z1 < i32::MAX,
    ensures
        final(storage).wf(),
        final(storage)@ == painted(
            old(storage)@,
            origin,
            box_shape(x0 as int, x1 as int, y0 as int, y1 as int, z0 as int, z1 as int, block),
            overwrite,
        ),
{
    let ghost v = storage@;
    let mut z = z0;
    proof {
        assert(box_shape(x0 as int, x1 as int, y0 as int, y1 as int, z0 as int, z0 - 1, block)
            =~= no_shape());
        lemma_paint_nothing(v, origin, overwrite);
    }
    while z <= z1
        invariant
            storage.wf(),
            z0 <= z <= z1 + 1,
            x0 <= x1 < i32::MAX,
            y0 <= y1 < i32::MAX,
            z1 < i32::MAX,
            storage@ == painted(
                v,
                origin,
                box_shape(x0 as int, x1 as int, y0 as int, y1 as int, z0 as int, z - 1, block),
                overwrite,
            ),
        decreases z1 + 1 - z,
    {
        let mut x = x0;
        proof {
            assert(overlay(
                box_shape(x0 as int, x1 as int, y0 as int, y1 as int, z0 as int, z - 1, block),
                box_shape(x0 as int, x0 - 1, y0 as int, y1 as int, z as int, z as int, block),
            ) =~= box_shape(x0 as int, x1 as int, y0 as int, y1 as int, z0 as int, z - 1, block));
        }
        while x <= x1
            invariant
                storage.wf(),
                z0 <= z <= z1,
                x0 <= x <= x1 + 1,
                x1 < i32::MAX,
                y0 <= y1 < i32::MAX,
                storage@ == painted(
                    v,
                    origin,
                    overlay(
                        box_shape(x0 as int, x1 as int, y0 as int, y1 as int, z0 as int, z - 1, block),
                        box_shape(x0 as int, x - 1, y0 as int, y1 as int, z as int, z as int, block),
                    ),
                    overwrite,
                ),
            decreases x1 + 1 - x,
        {
            let mut y = y0;
            proof {
                assert(overlay(
                    overlay(
                        box_shape(x0 as int, x1 as int, y0 as int, y1 as int, z0 as int, z - 1, block),
                        box_shape(x0 as int, x - 1, y0 as int, y1 as int, z as int, z as int, block),
                    ),
                    box_shape(x as int, x as int, y0 as int, y0 - 1, z as int, z as int, block),
                ) =~= overlay(
                    box_shape(x0 as int, x1 as int, y0 as int, y1 as int, z0 as int, z - 1, block),
                    box_shape(x0 as int, x - 1, y0 as int, y1 as int, z as int, z as int, block),
                ));
            }
            while y <= y1
                invariant
                    storage.wf(),
                    z0 <= z <= z1,
                    x0 <= x <= x1,
                    y0 <= y <= y1 + 1,
                    y1 < i32::MAX,
                    storage@ == painted(
                        v,
                        origin,
                        overlay(
                            overlay(
                                box_shape(x0 as int, x1 as int, y0 as int, y1 as int, z0 as int, z - 1, block),
                                box_shape(x0 as int, x - 1, y0 as int, y1 as int, z as int, z as int, block),
                            ),
                            box_shape(x as int, x as int, y0 as int, y - 1, z as int, z as int, block),
                        ),
                        overwrite,
                    ),
                decreases y1 + 1 - y,
            {
                let ghost before = overlay(
                    overlay(
                        box_shape(x0 as int, x1 as int, y0 as int, y1 as int, z0 as int, z - 1, block),
                        box_shape(x0 as int, x - 1, y0 as int, y1 as int, z as int, z as int, block),
                    ),
                    box_shape(x as int, x as int, y0 as int, y - 1, z as int, z as int, block),
                );
                stamp(storage, origin, x, y, z, block, overwrite);
                proof {
                    let cell = cell_shape(x as int, y as int, z as int, block);
                    lemma_paint_disjoint(v, origin, before, cell, overwrite);
                    assert(overlay(before, cell) =~= overlay(
                        overlay(
                            box_shape(x0 as int, x1 as int, y0 as int, y1 as int, z0 as int, z - 1, block),
                            box_shape(x0 as int, x - 1, y0 as int, y1 as int, z as int, z as int, block),
                        ),
                        box_shape(x as int, x as int, y0 as int, y as int, z as int, z as int, block),
                    ));
                }
                y += 1;
            }
            proof {
                assert(overlay(
                    overlay(
                        box_shape(x0 as int, x1 as int, y0 as int, y1 as int, z0 as int, z - 1, block),
                        box_shape(x0 as int, x - 1, y0 as int, y1 as int, z as int, z as int, block),
                    ),
                    box_shape(x as int, x as int, y0 as int, y - 1, z as int, z as int, block),
                ) =~= overlay(
                    box_shape(x0 as int, x1 as int, y0 as int, y1 as int, z0 as int, z - 1, block),
                    box_shape(x0 as int, x as int, y0 as int, y1 as int, z as int, z as int, block),
                ));
            }
            x += 1;
        }
        proof {
            assert(overlay(
                box_shape(x0 as int, x1 as int, y0 as int, y1 as int, z0 as int, z - 1, block),
                box_shape(x0 as int, x - 1, y0 as int, y1 as int, z as int, z as int, block),
            ) =~= box_shape(x0 as int, x1 as int, y0 as int, y1 as int, z0 as int, z as int, block));
        }
        z += 1;
    }
}

/// Shapes that are stamped position by position over a bounding box.
#[derive(Clone, Copy, PartialEq, Eq, Structural, Debug)]
pub enum Shape {
    /// The walls of a 5×5 cottage on the floor at height `floor`: a 3-high
    /// plank perimeter with a doorway in the front wall and a glass window in
    /// the middle of each wall.
    Walls { bx: i32, bz: i32, floor: i32 },
    /// A squashed-sphere broadleaf canopy around `(wx, top, wz)`.
    Canopy { wx: i32, wz: i32, top: i32, leaf: BlockId },
    /// A conifer crown from height `base`: needle rings of radius 2, 2, 1,
    /// 1, 0, 0 and a tip above them.
    Crown { wx: i32, wz: i32, base: i32, leaf: BlockId },
}

/// Whether a cottage wall cell is a window.
pub open spec fn is_window(dx: int, dy: int, dz: int) -> bool {
    dy == 2 && ((dx == 2 && (dz == 0 || dz == 4)) || (dz == 2 && (dx == 0 || dx == 4)))
}

/// The block a shape puts at a world position, if any.
pub open spec fn shape_spec(s: Shape) -> spec_fn(int, int, int) -> Option<BlockId> {
    |x: int, y: int, z: int|
        match s {
            Shape::Walls { bx, bz, floor } => {
                let dx = x - bx;
                let dy = y - floor;
                let dz = z - bz;
                if 1 <= dy <= 3 && 0 <= dx < 5 && 0 <= dz < 5 && (dx == 0 || dx == 4 || dz == 0 || dz
                    == 4) && !(dz == 0 && dx == 2 && dy <= 2) {
                    Some(
                        if is_window(dx, dy, dz) {
                            BlockId(15)
                        } else {
                            BlockId(11)
                        },
                    )
                } else {
                    None
                }
            },
            Shape::Canopy { wx, wz, top, leaf } => {
                let dx = x - wx;
                let dy = y - top;
                let dz = z - wz;
                let r = if dy >= 2 {
                    1int
                } else {
                    2int
                };
                if -1 <= dy <= 2 && -r <= dx <= r && -r <= dz <= r && dx * dx + dz * dz + (dy * dy) / 2
                    <= r * r + 1 {
                    Some(leaf)
                } else {
                    None
                }
            },
            Shape::Crown { wx, wz, base, leaf } => {
                let dx = x - wx;
                let dy = y - base;
                let dz = z - wz;
                let r = 2 - dy / 2;
                if 0 <= dy < 6 && -r <= dx <= r && -r <= dz <= r && dx * dx + dz * dz <= r * r + 1 {
                    Some(leaf)
                } else if dy == 6 && dx == 0 && dz == 0 {
                    Some(leaf)
                } else {
                    None
                }
            },
        }
}

/// The bounding box `(x0, x1, y0, y1, z0, z1)` of a shape.
pub open spec fn shape_box(s: Shape) -> (int, int, int, int, int, int) {
    match s {
        Shape::Walls { bx, bz, floor } => (bx as int, bx + 4, floor + 1, floor + 3, bz as int, bz + 4),
        Shape::Canopy { wx, wz, top, leaf } => (wx - 2, wx + 2, top - 1, top + 2, wz - 2, wz + 2),
        Shape::Crown { wx, wz, base, leaf } => (wx - 2, wx + 2, base as int, base + 6, wz - 2, wz + 2),
    }
}

/// Whether a shape's coordinates stay well inside `i32`.
pub open spec fn shape_fits(s: Shape) -> bool {
    match s {
        Shape::Walls { bx, bz, floor } => -2147000000 <= bx <= 2147000000 && -2147000000 <= bz
            <= 2147000000 && -2147000000 <= floor <= 2147000000,
        Shape::Canopy { wx, wz, top, leaf } => -2147000000 <= wx <= 2147000000 && -2147000000 <= wz
            <= 2147000000 && -2147000000 <= top <= 2147000000,
        Shape::Crown { wx, wz, base, leaf } => -2147000000 <= wx <= 2147000000 && -2147000000 <= wz
            <= 2147000000 && -2147000000 <= base <= 2147000000,
    }
}

fn shape_at(s: Shape, x: i32, y: i32, z: i32) -> (r: Option<BlockId>)
    requires
        shape_fits(s),
        shape_box(s).0 <= x <= shape_box(s).1,
        shape_box(s).2 <= y <= shape_box(s).3,
        shape_box(s).4 <= z <= shape_box(s).5,
    ensures
        r == shape_spec(s)(x as int, y as int, z as int),
{
    match s {
        Shape::Walls { bx, bz, floor } => {
            let dx = x - bx;
            let dy = y - floor;
            let dz = z - bz;
            let perimeter = dx == 0 || dx == 4 || dz == 0 || dz == 4;
            if !perimeter || (dz == 0 && dx == 2 && dy <= 2) {
                None
            } else {
                let window = dy == 2 && ((dx == 2 && (dz == 0 || dz == 4)) || (dz == 2 && (dx == 0 || dx
                    == 4)));
                Some(
                    if window {
                        blocks::GLASS()
                    } else {
                        blocks::PLANK()
                    },
                )
            }
        },
        Shape::Canopy { wx, wz, top, leaf } => {
            let dx = x - wx;
            let dy = y - top;
            let dz = z - wz;
            let r: i32 = if dy >= 2 {
                1
            } else {
                2
            };
            if -r <= dx && dx <= r && -r <= dz && dz <= r {
                proof {
                    assert(0 <= dx * dx <= 4 && 0 <= dz * dz <= 4 && 0 <= dy * dy <= 4)
                        by (nonlinear_arith)
                        requires
                            -2 <= dx <= 2,
                            -2 <= dz <= 2,
                            -1 <= dy <= 2,
                    ;
                }
                if dx * dx + dz * dz + (dy * dy) / 2 <= r * r + 1 {
                    Some(leaf)
                } else {
                    None
                }
            } else {
                None
            }
        },
        Shape::Crown { wx, wz, base, leaf } => {
            let dx = x - wx;
            let dy = y - base;
            let dz = z - wz;
            if dy < 6 {
                let r: i32 = 2 - dy / 2;
                if -r <= dx && dx <= r && -r <= dz && dz <= r {
                    proof {
                        assert(0 <= r <= 2);
                        assert(0 <= dx * dx <= 4 && 0 <= dz * dz <= 4 && r * r <= 4)
                            by (nonlinear_arith)
                            requires
                                -2 <= dx <= 2,
                                -2 <= dz <= 2,
                                0 <= r <= 2,
                        ;
                    }
                    if dx * dx + dz * dz <= r * r + 1 {
                        Some(leaf)
                    } else {
                        None
                    }
                } else {
                    None
                }
            } else if dx == 0 && dz == 0 {
                Some(leaf)
            } else {
                None
            }
        },
    }
}

/// The part of shape `f` at positions before `(x, y, z)` in the sweep over
/// a box (z slowest, then x, then y).
pub open spec fn swept(
    f: spec_fn(int, int, int) -> Option<BlockId>,
    x0: int,
    x1: int,
    y0: int,
    y1: int,
    z0: int,
    cx: int,
    cy: int,
    cz: int,
) -> spec_fn(int, int, int) -> Option<BlockId> {
    |x: int, y: int, z: int|
        if x0 <= x <= x1 && y0 <= y <= y1 && z0 <= z && (z < cz || (z == cz && (x < cx || (x == cx && y
            < cy)))) {
            f(x, y, z)
        } else {
            None
        }
}

/// Stamp a shape over its bounding box, position by position.
fn paint_shape(storage: &mut ChunkStorage, origin: BlockPos, s: Shape, overwrite: bool)
    requires
        old(storage).wf(),
        shape_fits(s),
    ensures
        final(storage).wf(),
        final(storage)@ == painted(old(storage)@, origin, shape_spec(s), overwrite),
{
    let ghost v = storage@;
    let ghost f = shape_spec(s);
    let (x0, x1, y0, y1, z0, z1) = match s {
        Shape::Walls { bx, bz, floor } => (bx, bx + 4, floor + 1, floor + 3, bz, bz + 4),
        Shape::Canopy { wx, wz, top, leaf } => (wx - 2, wx + 2, top - 1, top + 2, wz - 2, wz + 2),
        Shape::Crown { wx, wz, base, leaf } => (wx - 2, wx + 2, base, base + 6, wz - 2, wz + 2),
    };
    let ghost b = shape_box(s);
    proof {
        assert(swept(f, x0 as int, x1 as int, y0 as int, y1 as int, z0 as int, x0 as int, y0 as int, z0 as int) =~= no_shape());
        lemma_paint_nothing(v, origin, overwrite);
    }
    let mut z = z0;
    while z <= z1
        invariant
            storage.wf(),
            shape_fits(s),
            f == shape_spec(s),
            b == shape_box(s),
            b == (x0 as int, x1 as int, y0 as int, y1 as int, z0 as int, z1 as int),
            x0 <= x1 < i32::MAX,
            y0 <= y1 < i32::MAX,
            z0 <= z <= z1 + 1,
            z1 < i32::MAX,
            storage@ == painted(v, origin, swept(f, x0 as int, x1 as int, y0 as int, y1 as int, z0 as int, x0 as int, y0 as int, z as int), overwrite),
        decreases z1 + 1 - z,
    {
        let mut x = x0;
        while x <= x1
            invariant
                storage.wf(),
                shape_fits(s),
                f == shape_spec(s),
                b == (x0 as int, x1 as int, y0 as int, y1 as int, z0 as int, z1 as int),
                b == shape_box(s),
                x0 <= x <= x1 + 1,
                x1 < i32::MAX,
                y0 <= y1 < i32::MAX,
                z0 <= z <= z1,
                storage@ == painted(v, origin, swept(f, x0 as int, x1 as int, y0 as int, y1 as int, z0 as int, x as int, y0 as int, z as int), overwrite),
            decreases x1 + 1 - x,
        {
            let mut y = y0;
            while y <= y1
                invariant
                    storage.wf(),
                    shape_fits(s),
                    f == shape_spec(s),
                    b == (x0 as int, x1 as int, y0 as int, y1 as int, z0 as int, z1 as int),
                    b == shape_box(s),
                    x0 <= x <= x1,
                    y0 <= y <= y1 + 1,
                    y1 < i32::MAX,
                    z0 <= z <= z1,
                    storage@ == painted(v, origin, swept(f, x0 as int, x1 as int, y0 as int, y1 as int, z0 as int, x as int, y as int, z as int), overwrite),
                decreases y1 + 1 - y,
            {
                let ghost before = swept(f, x0 as int, x1 as int, y0 as int, y1 as int, z0 as int, x as int, y as int, z as int);
                let ghost after = swept(f, x0 as int, x1 as int, y0 as int, y1 as int, z0 as int, x as int, y + 1, z as int);
                match shape_at(s, x, y, z) {
                    Some(block) => {
                        stamp(storage, origin, x, y, z, block, overwrite);
                        proof {
                            let cell = cell_shape(x as int, y as int, z as int, block);
                            lemma_paint_disjoint(v, origin, before, cell, overwrite);
                            assert(overlay(before, cell) =~= after);
                        }
                    },
                    None => {
                        proof {
                            assert(before =~= after);
                        }
                    },
                }
                y += 1;
            }
            proof {
                assert(swept(f, x0 as int, x1 as int, y0 as int, y1 as int, z0 as int, x as int, y as int, z as int) =~= swept(f, x0 as int, x1 as int, y0 as int, y1 as int, z0 as int, x + 1, y0 as int, z as int));
            }
            x += 1;
        }
        proof {
            assert(swept(f, x0 as int, x1 as int, y0 as int, y1 as int, z0 as int, x as int, y0 as int, z as int) =~= swept(f, x0 as int, x1 as int, y0 as int, y1 as int, z0 as int, x0 as int, y0 as int, z + 1));
        }
        z += 1;
    }
    proof {
        assert forall|x: int, y: int, z: int| #[trigger] f(x, y, z) is Some implies b.0 <= x <= b.1 && b.2 <= y <= b.3 && b.4 <= z <= b.5 by {
            lemma_shape_in_box(s, x, y, z);
        }
        assert(swept(f, x0 as int, x1 as int, y0 as int, y1 as int, z0 as int, x0 as int, y0 as int, z as int) =~= f);
    }
}

proof fn lemma_shape_in_box(s: Shape, x: int, y: int, z: int)
    requires
        shape_spec(s)(x, y, z) is Some,
    ensures
        shape_box(s).0 <= x <= shape_box(s).1,
        shape_box(s).2 <= y <= shape_box(s).3,
        shape_box(s).4 <= z <= shape_box(s).5,
{
    match s {
        Shape::Walls { bx, bz, floor } => {},
        Shape::Canopy { wx, wz, top, leaf } => {},
        Shape::Crown { wx, wz, base, leaf } => {
            let dy = y - base;
            if 0 <= dy < 6 {
                assert(0 <= dy / 2 <= 2);
            }
        },
    }
}

/// Whether a coordinate stays well inside `i32` for the stamping arithmetic.
pub open spec fn coord_ok(v: int) -> bool {
    -2146000000 <= v <= 2146000000
}

/// The voxels after stamping a 5×5 cottage on the floor `(bx, floor, bz)`:
/// the building volume and a one-block yard are cleared to air, then the
/// cobble floor, the walls, the two roof layers and a lantern inside.
pub open spec fn cottage_spec(v: Seq<BlockId>, origin: BlockPos, bx: int, bz: int, floor: int) -> Seq<
    BlockId,
> {
    let cleared = painted(v, origin, box_shape(bx - 1, bx + 5, floor + 1, floor + 10, bz - 1, bz + 5, BlockId(0)), true);
    let floored = painted(cleared, origin, box_shape(bx, bx + 4, floor, floor, bz, bz + 4, BlockId(16)), true);
    let walled = painted(
        floored,
        origin,
        shape_spec(Shape::Walls { bx: bx as i32, bz: bz as i32, floor: floor as i32 }),
        true,
    );
    let roofed = painted(walled, origin, box_shape(bx, bx + 4, floor + 4, floor + 4, bz, bz + 4, BlockId(21)), true);
    let peaked = painted(roofed, origin, box_shape(bx + 1, bx + 3, floor + 5, floor + 5, bz + 1, bz + 3, BlockId(21)), true);
    painted(peaked, origin, cell_shape(bx + 2, floor + 1, bz + 2, BlockId(12)), true)
}

/// Stamp a 5×5 cosy cottage: cobble base, plank walls with glass windows
/// and a doorway, a clay-tiled peaked roof, and a lantern glowing inside.
/// The building volume (plus a one-block yard, and well above the roof) is
/// cleared first so trees and flora don't pierce the cottage.
fn stamp_cottage(storage: &mut ChunkStorage, origin: BlockPos, bx: i32, bz: i32, floor_y: i32)
    requires
        old(storage).wf(),
        coord_ok(bx as int),
        coord_ok(bz as int),
        coord_ok(floor_y as int),
    ensures
        final(storage).wf(),
        final(storage)@ == cottage_spec(old(storage)@, origin, bx as int, bz as int, floor_y as int),
{
    fill_box(storage, origin, bx - 1, bx + 5, floor_y + 1, floor_y + 10, bz - 1, bz + 5, BlockId::AIR(), true);
    fill_box(storage, origin, bx, bx + 4, floor_y, floor_y, bz, bz + 4, blocks::COBBLE(), true);
    paint_shape(storage, origin, Shape::Walls { bx, bz, floor: floor_y }, true);
    fill_box(storage, origin, bx, bx + 4, floor_y + 4, floor_y + 4, bz, bz + 4, blocks::ROOF(), true);
    fill_box(storage, origin, bx + 1, bx + 3, floor_y + 5, floor_y + 5, bz + 1, bz + 3, blocks::ROOF(), true);
    stamp(storage, origin, bx + 2, floor_y + 1, bz + 2, blocks::LANTERN(), true);
}

/// The voxels after growing a broadleaf tree on the column `(wx, wz)` whose
/// ground is at `surface`, with `draw` the random draw that sets its trunk
/// height (4 to 6): the trunk replaces whatever is there; the canopy only
/// fills air.
pub open spec fn blob_tree_spec(
    v: Seq<BlockId>,
    origin: BlockPos,
    wx: int,
    wz: int,
    surface: int,
    leaf: BlockId,
    draw: u64,
) -> Seq<BlockId> {
    let trunk_h = 4 + (draw % 3) as int;
    let base = surface + 1;
    let trunk = painted(v, origin, box_shape(wx, wx, base, base + trunk_h - 1, wz, wz, BlockId(6)), true);
    painted(
        trunk,
        origin,
        shape_spec(Shape::Canopy { wx: wx as i32, wz: wz as i32, top: (base + trunk_h) as i32, leaf }),
        false,
    )
}

/// The voxels after growing a conifer (trunk 6 to 8 high, needle crown from
/// four below the trunk top).
pub open spec fn pine_spec(v: Seq<BlockId>, origin: BlockPos, wx: int, wz: int, surface: int, draw: u64) -> Seq<
    BlockId,
> {
    let trunk_h = 6 + (draw % 3) as int;
    let base = surface + 1;
    let trunk = painted(v, origin, box_shape(wx, wx, base, base + trunk_h - 1, wz, wz, BlockId(6)), true);
    painted(
        trunk,
        origin,
        shape_spec(Shape::Crown { wx: wx as i32, wz: wz as i32, base: (base + trunk_h - 4) as i32, leaf: BlockId(7) }),
        false,
    )
}

/// The tree a biome grows: conifers on snowy peaks, broadleaf trees
/// elsewhere.
pub open spec fn tree_spec(
    v: Seq<BlockId>,
    origin: BlockPos,
    wx: int,
    wz: int,
    surface: int,
    biome: Biome,
    draw: u64,
) -> Seq<BlockId> {
    if biome == Biome::SnowyPeaks {
        pine_spec(v, origin, wx, wz, surface, draw)
    } else {
        blob_tree_spec(v, origin, wx, wz, surface, BlockId(7), draw)
    }
}

/// A rounded broadleaf tree with a squashed-sphere canopy.
fn place_blob_tree(
    storage: &mut ChunkStorage,
    origin: BlockPos,
    wx: i32,
    wz: i32,
    surface: i32,
    leaf: BlockId,
    rng: &mut SplitMix64,
)
    requires
        old(storage).wf(),
        coord_ok(wx as int),
        coord_ok(wz as int),
        coord_ok(surface as int),
    ensures
        final(storage).wf(),
        final(rng).state_spec() == mix_step(old(rng).state_spec()),
        final(storage)@ == blob_tree_spec(
            old(storage)@,
            origin,
            wx as int,
            wz as int,
            surface as int,
            leaf,
            mix_out(final(rng).state_spec()),
        ),
{
    let trunk_h = 4 + (rng.next_u64() % 3) as i32;
    let base = surface + 1;
    fill_box(storage, origin, wx, wx, base, base + trunk_h - 1, wz, wz, blocks::TRUNK(), true);
    paint_shape(storage, origin, Shape::Canopy { wx, wz, top: base + trunk_h, leaf }, false);
}

/// A tall conical conifer: a straight trunk with layered needle rings that
/// taper to a point.
fn place_pine(storage: &mut ChunkStorage, origin: BlockPos, wx: i32, wz: i32, surface: i32, rng: &mut SplitMix64)
    requires
        old(storage).wf(),
        coord_ok(wx as int),
        coord_ok(wz as int),
        coord_ok(surface as int),
    ensures
        final(storage).wf(),
        final(rng).state_spec() == mix_step(old(rng).state_spec()),
        final(storage)@ == pine_spec(
            old(storage)@,
            origin,
            wx as int,
            wz as int,
            surface as int,
            mix_out(final(rng).state_spec()),
        ),
{
    let trunk_h = 6 + (rng.next_u64() % 3) as i32;
    let base = surface + 1;
    fill_box(storage, origin, wx, wx, base, base + trunk_h - 1, wz, wz, blocks::TRUNK(), true);
    paint_shape(storage, origin, Shape::Crown { wx, wz, base: base + trunk_h - 4, leaf: blocks::LEAVES() }, false);
}

/// Stamp a tree whose species suits the biome. Only blocks inside the
/// chunk are written.
fn place_tree(
    storage: &mut ChunkStorage,
    origin: BlockPos,
    wx: i32,
    wz: i32,
    surface: i32,
    biome: Biome,
    rng: &mut SplitMix64,
)
    requires
        old(storage).wf(),
        coord_ok(wx as int),
        coord_ok(wz as int),
        coord_ok(surface as int),
    ensures
        final(storage).wf(),
        final(rng).state_spec() == mix_step(old(rng).state_spec()),
        final(storage)@ == tree_spec(
            old(storage)@,
            origin,
            wx as int,
            wz as int,
            surface as int,
            biome,
            mix_out(final(rng).state_spec()),
        ),
{
    match biome {
        Biome::SnowyPeaks => place_pine(storage, origin, wx, wz, surface, rng),
        _ => place_blob_tree(storage, origin, wx, wz, surface, blocks::LEAVES(), rng),
    }
}

/// The ground plant a biome grows for a draw of `pick` in `0..100`.
pub open spec fn flora_block(biome: Biome, pick: int) -> BlockId {
    match biome {
        Biome::Forest => if pick < 35 {
            BlockId(13)
        } else if pick < 60 {
            BlockId(20)
        } else if pick < 80 {
            BlockId(19)
        } else if pick < 90 {
            BlockId(9)
        } else {
            BlockId(10)
        },
        Biome::Dunes => BlockId(14),
        _ => if pick < 55 {
            BlockId(19)
        } else if pick < 78 {
            BlockId(9)
        } else if pick < 94 {
            BlockId(10)
        } else {
            BlockId(20)
        },
    }
}

/// The voxels after planting the flora of a draw on top of a column; the
/// plant only takes an air cell.
pub open spec fn flora_spec(v: Seq<BlockId>, origin: BlockPos, wx: int, wz: int, surface: int, biome: Biome, draw: u64) -> Seq<
    BlockId,
> {
    painted(v, origin, cell_shape(wx, surface + 1, wz, flora_block(biome, (draw % 100) as int)), false)
}

fn place_flora(
    storage: &mut ChunkStorage,
    origin: BlockPos,
    wx: i32,
    wz: i32,
    surface: i32,
    biome: Biome,
    rng: &mut SplitMix64,
)
    requires
        old(storage).wf(),
        coord_ok(surface as int),
    ensures
        final(storage).wf(),
        final(rng).state_spec() == mix_step(old(rng).state_spec()),
        final(storage)@ == flora_spec(
            old(storage)@,
            origin,
            wx as int,
            wz as int,
            surface as int,
            biome,
            mix_out(final(rng).state_spec()),
        ),
{
    let pick = rng.next_u64() % 100;
    let block = match biome {
        Biome::Forest => {
            if pick < 35 {
                blocks::MUSHROOM()
            } else if pick < 60 {
                blocks::BERRY_BUSH()
            } else if pick < 80 {
                blocks::TALL_GRASS()
            } else if pick < 90 {
                blocks::FLOWER_PINK()
            } else {
                blocks::FLOWER_BLUE()
            }
        },
        Biome::Dunes => blocks::PUMPKIN(),
        _ => {
            if pick < 55 {
                blocks::TALL_GRASS()
            } else if pick < 78 {
                blocks::FLOWER_PINK()
            } else if pick < 94 {
                blocks::FLOWER_BLUE()
            } else {
                blocks::BERRY_BUSH()
            }
        },
    };
    stamp(storage, origin, wx, surface + 1, wz, block, false);
}

// ---------------------------------------------------------------------------
// Terrain, decoration and structure passes.

/// Whether a column grows a tree, ground flora or nothing, as its scatter
/// roll against the biome's densities decided.
#[derive(Clone, Copy, PartialEq, Eq, Structural, Debug)]
pub enum Growth {
    Nothing,
    Tree,
    Flora,
}

/// What the terrain pass needs of a world column: its surface height, its
/// biome, and what grows on it.
#[derive(Clone, Copy, PartialEq, Eq, Structural, Debug)]
pub struct ColumnPlan {
    pub surface: i32,
    pub biome: Biome,
    pub growth: Growth,
}

/// What the structure pass needs of a region: whether its roll admits a
/// cottage, and the biome and surface heights at the corners of the
/// cottage's site.
#[derive(Clone, Copy, PartialEq, Eq, Structural, Debug)]
pub struct SitePlan {
    pub accepted: bool,
    pub biome: Biome,
    pub h00: i32,
    pub h40: i32,
    pub h04: i32,
    pub h44: i32,
}

/// The sampled inputs of one chunk: the columns of the chunk padded by the
/// decoration margin (38 × 38, row by row in z), the per-voxel cave and ore
/// flags (bit 1 cave, bit 2 crystal, bit 4 coal, by linear voxel index), and
/// one site per structure region overlapping the chunk (row by row in z).
pub struct TerrainPlan {
    pub window: Vec<ColumnPlan>,
    pub flags: Vec<u8>,
    pub sites: Vec<SitePlan>,
}

/// Edge of the padded decoration window.
pub const WINDOW: i32 = 38;

/// Largest tree footprint radius; decoration pads columns by this much.
pub const DECORATION_MARGIN: i32 = 3;

/// Edge length of a structure region (at most one cottage per region).
pub const STRUCTURE_REGION: i32 = 80;

/// Maximum structure footprint, used to pad the region scan.
pub const STRUCTURE_MARGIN: i32 = 8;

/// Whether flag `bit` (1, 2 or 4) is set.
pub open spec fn flag_set(f: u8, bit: int) -> bool {
    (f as int / bit) % 2 == 1
}

/// The block of the terrain pass at height `wy` of a column with surface
/// `surface` in `biome`: water up to sea level above ground and in caves
/// (none below height 5), the biome's surface and subsurface, and stone
/// with crystal (below height 26) and coal ores.
pub open spec fn terrain_block_spec(wy: int, surface: int, biome: Biome, f: u8) -> BlockId {
    if wy > surface {
        if wy <= 62 {
            BlockId(5)
        } else {
            BlockId(0)
        }
    } else if wy >= 5 && flag_set(f, 1) {
        if wy <= 62 {
            BlockId(5)
        } else {
            BlockId(0)
        }
    } else if wy == surface {
        if surface < 62 {
            BlockId(2)
        } else {
            surface_spec(biome)
        }
    } else if wy >= surface - 3 {
        subsurface_spec(biome)
    } else if wy < 26 && flag_set(f, 2) {
        BlockId(18)
    } else if flag_set(f, 4) {
        BlockId(22)
    } else {
        BlockId(3)
    }
}

/// Choose the block for a single voxel during the terrain pass.
pub fn terrain_block(wy: i32, surface: i32, biome: Biome, flags: u8) -> (r: BlockId)
    requires
        surface > i32::MIN + 3,
    ensures
        r == terrain_block_spec(wy as int, surface as int, biome, flags),
{
    if wy > surface {
        if wy <= SEA_LEVEL {
            return blocks::WATER();
        }
        return BlockId::AIR();
    }
    if wy >= 5 && flags % 2 == 1 {
        if wy <= SEA_LEVEL {
            return blocks::WATER();
        }
        return BlockId::AIR();
    }
    if wy == surface {
        if surface < SEA_LEVEL {
            return blocks::DIRT();
        }
        return biome.surface();
    }
    if wy >= surface - 3 {
        return biome.subsurface();
    }
    if wy < 26 && (flags / 2) % 2 == 1 {
        return blocks::CRYSTAL();
    }
    if (flags / 4) % 2 == 1 {
        return blocks::COAL_ORE();
    }
    blocks::STONE()
}

/// The column plan at chunk-local `(x, z)` of a padded window.
pub open spec fn column_at(window: Seq<ColumnPlan>, x: int, z: int) -> ColumnPlan {
    window[(z + 3) * 38 + (x + 3)]
}

/// The voxels of the terrain pass.
pub open spec fn terrain_spec(origin: BlockPos, window: Seq<ColumnPlan>, flags: Seq<u8>) -> Seq<BlockId> {
    Seq::new(
        32768,
        |i: int|
            terrain_block_spec(
                origin.y + voxel_y(i),
                column_at(window, voxel_x(i), voxel_z(i)).surface as int,
                column_at(window, voxel_x(i), voxel_z(i)).biome,
                flags[i],
            ),
    )
}

/// Whether some column of the chunk reaches its bottom layer.
pub open spec fn any_solid(origin: BlockPos, window: Seq<ColumnPlan>) -> bool {
    exists|x: int, z: int| 0 <= x < 32 && 0 <= z < 32 && #[trigger] column_at(window, x, z).surface >= origin.y
}

/// The growth of one window column on the voxels `v`.
pub open spec fn grow_column(v: Seq<BlockId>, origin: BlockPos, seed: u64, col: ColumnPlan, wx: int, wz: int) -> Seq<
    BlockId,
> {
    if col.surface < 62 {
        v
    } else {
        let st = mix_step(mix_step(hash_coords_spec(seed ^ 0x5EED, wx as i32, wz as i32)));
        match col.growth {
            Growth::Tree => tree_spec(v, origin, wx, wz, col.surface as int, col.biome, mix_out(st)),
            Growth::Flora => flora_spec(v, origin, wx, wz, col.surface as int, col.biome, mix_out(st)),
            Growth::Nothing => v,
        }
    }
}

/// The voxels after growing the first `k` window columns in order.
pub open spec fn decorated(v: Seq<BlockId>, origin: BlockPos, seed: u64, window: Seq<ColumnPlan>, k: int) -> Seq<
    BlockId,
>
    decreases k,
{
    if k <= 0 {
        v
    } else {
        let j = k - 1;
        grow_column(
            decorated(v, origin, seed, window, j),
            origin,
            seed,
            window[j],
            origin.x + j % 38 - 3,
            origin.z + j / 38 - 3,
        )
    }
}

/// Whether a chunk origin leaves room for the padded passes.
pub open spec fn origin_ok(o: BlockPos) -> bool {
    -2145000000 <= o.x <= 2145000000 && -2145000000 <= o.y <= 2145000000 && -2145000000 <= o.z <= 2145000000
}

/// Whether every window column's surface is in the stamping range.
pub open spec fn window_ok(window: Seq<ColumnPlan>) -> bool {
    window.len() == 1444 && forall|k: int| 0 <= k < 1444 ==> coord_ok(#[trigger] window[k].surface as int)
}

/// Scatter trees and flora across the padded window of columns and stamp
/// the blocks that land inside the chunk.
fn decorate(seed: u64, origin: BlockPos, storage: &mut ChunkStorage, window: &Vec<ColumnPlan>)
    requires
        old(storage).wf(),
        origin_ok(origin),
        window_ok(window@),
    ensures
        final(storage).wf(),
        final(storage)@ == decorated(old(storage)@, origin, seed, window@, 1444),
{
    let ghost v = storage@;
    let mut lz: i32 = -DECORATION_MARGIN;
    let mut k: usize = 0;
    while lz < 32 + DECORATION_MARGIN
        invariant
            storage.wf(),
            origin_ok(origin),
            window_ok(window@),
            -3 <= lz <= 35,
            k == (lz + 3) * 38,
            storage@ == decorated(v, origin, seed, window@, k as int),
        decreases 35 - lz,
    {
        let mut lx: i32 = -DECORATION_MARGIN;
        while lx < 32 + DECORATION_MARGIN
            invariant
                storage.wf(),
                origin_ok(origin),
                window_ok(window@),
                -3 <= lz < 35,
                -3 <= lx <= 35,
                k == (lz + 3) * 38 + (lx + 3),
                storage@ == decorated(v, origin, seed, window@, k as int),
            decreases 35 - lx,
        {
            let wx = origin.x + lx;
            let wz = origin.z + lz;
            let col = window[k];
            proof {
                assert(k as int % 38 == lx + 3 && k as int / 38 == lz + 3) by (nonlinear_arith)
                    requires
                        k == (lz + 3) * 38 + (lx + 3),
                        0 <= lx + 3 < 38,
                ;
                assert(coord_ok(window@[k as int].surface as int));
            }
            if col.surface >= SEA_LEVEL {
                let mut rng = SplitMix64::new(hash_coords(seed ^ 0x5EED, wx, wz));
                let _roll = rng.next_u64();
                match col.growth {
                    Growth::Tree => place_tree(storage, origin, wx, wz, col.surface, col.biome, &mut rng),
                    Growth::Flora => place_flora(storage, origin, wx, wz, col.surface, col.biome, &mut rng),
                    Growth::Nothing => {},
                }
            }
            k += 1;
            lx += 1;
        }
        lz += 1;
    }
}

/// Floor division by a positive divisor.
fn floor_div(v: i32, d: i32) -> (r: i32)
    requires
        d > 0,
    ensures
        r == v as int / d as int,
{
    if v >= 0 {
        v / d
    } else {
        let q = (-(v as i64) - 1) / (d as i64);
        proof {
            assert(-q - 1 == v as int / d as int) by (nonlinear_arith)
                requires
                    v < 0,
                    d > 0,
                    q == (-(v as int) - 1) / (d as int),
            ;
        }
        (-q - 1) as i32
    }
}

/// Where a region's cottage would stand: the region roll's raw draw and the
/// site's corner `(bx, bz)`, jittered within the region away from its edges.
pub open spec fn site_spec(seed: u64, rx: int, rz: int) -> (u64, int, int) {
    let s1 = mix_step(hash_coords_spec(seed ^ 0x57AB1E5, rx as i32, rz as i32));
    let s2 = mix_step(s1);
    let s3 = mix_step(s2);
    (mix_out(s1), rx * 80 + 8 + (mix_out(s2) % 64) as int, rz * 80 + 8 + (mix_out(s3) % 64) as int)
}

/// The cottage site of region `(rx, rz)`: the roll's raw draw (whose top 24
/// bits, as a fraction, admit a cottage at most 0.55) and the site corner.
pub fn cottage_site(seed: u64, rx: i32, rz: i32) -> (r: (u64, i32, i32))
    requires
        -26843544 <= rx <= 26843544,
        -26843544 <= rz <= 26843544,
    ensures
        (r.0, r.1 as int, r.2 as int) == site_spec(seed, rx as int, rz as int),
{
    let mut rng = SplitMix64::new(hash_coords(seed ^ 0x57AB1E5, rx, rz));
    let roll = rng.next_u64();
    let bx = rx * STRUCTURE_REGION + 8 + (rng.next_u64() % 64) as i32;
    let bz = rz * STRUCTURE_REGION + 8 + (rng.next_u64() % 64) as i32;
    (roll, bx, bz)
}

/// Whether a region's roll admits a cottage: its top 24 bits, as a
/// fraction of 2^24, are at most 0.55 (9227469 / 2^24, the nearest `f32`).
pub open spec fn admits_spec(draw: u64) -> bool {
    draw >> 40u64 <= 9227469
}

/// Whether a region's roll (the first value of [`cottage_site`]) admits a
/// cottage.
pub fn site_admits(draw: u64) -> (r: bool)
    ensures
        r == admits_spec(draw),
{
    draw >> 40 <= 9227469
}

/// The scatter draw of column `(wx, wz)`: the top 24 bits of the first value
/// of its generator, a fraction of 2^24.
pub open spec fn scatter_draw(seed: u64, wx: i32, wz: i32) -> u64 {
    mix_out(mix_step(hash_coords_spec(seed ^ 0x5EED, wx, wz))) >> 40u64
}

/// Below this draw a column of biome `b` grows a tree: the biome's tree
/// density (as an `f32`) out of 2^24, rounded up.
pub open spec fn tree_cut(b: Biome) -> u64 {
    match b {
        Biome::Meadow => 201327,
        Biome::Forest => 1426064,
        Biome::Beach => 0,
        Biome::SnowyPeaks => 335545,
        Biome::Dunes => 0,
    }
}

/// Below this draw a column of biome `b` grows a tree or flora: the `f32`
/// sum of the tree and flora densities out of 2^24, rounded up.
pub open spec fn growth_cut(b: Biome) -> u64 {
    match b {
        Biome::Meadow => 1207960,
        Biome::Forest => 2264925,
        Biome::Beach => 67109,
        Biome::SnowyPeaks => 335545,
        Biome::Dunes => 201327,
    }
}

/// What grows on column `(wx, wz)` of biome `b`.
pub open spec fn growth_spec(seed: u64, wx: i32, wz: i32, b: Biome) -> Growth {
    let d = scatter_draw(seed, wx, wz);
    if d < tree_cut(b) {
        Growth::Tree
    } else if d < growth_cut(b) {
        Growth::Flora
    } else {
        Growth::Nothing
    }
}

/// Roll what grows on a column of the given biome: a tree, ground flora or
/// nothing, at the biome's densities.
pub fn column_growth(seed: u64, wx: i32, wz: i32, biome: Biome) -> (r: Growth)
    ensures
        r == growth_spec(seed, wx, wz, biome),
{
    let mut rng = SplitMix64::new(hash_coords(seed ^ 0x5EED, wx, wz));
    let d = rng.next_u64() >> 40;
    let (tree, any): (u64, u64) = match biome {
        Biome::Meadow => (201327, 1207960),
        Biome::Forest => (1426064, 2264925),
        Biome::Beach => (0, 67109),
        Biome::SnowyPeaks => (335545, 335545),
        Biome::Dunes => (0, 201327),
    };
    if d < tree {
        Growth::Tree
    } else if d < any {
        Growth::Flora
    } else {
        Growth::Nothing
    }
}

/// The lowest and highest of four heights.
pub open spec fn min4(a: int, b: int, c: int, d: int) -> int {
    let ab = if a < b { a } else { b };
    let cd = if c < d { c } else { d };
    if ab < cd { ab } else { cd }
}

pub open spec fn max4(a: int, b: int, c: int, d: int) -> int {
    let ab = if a > b { a } else { b };
    let cd = if c > d { c } else { d };
    if ab > cd { ab } else { cd }
}

/// Whether a site gets a cottage: admitted by its roll, in a gentle grassy
/// biome, on dry land, and flat enough (corner heights within one block).
pub open spec fn builds(p: SitePlan) -> bool {
    &&& p.accepted
    &&& (p.biome == Biome::Meadow || p.biome == Biome::Forest)
    &&& p.h00 >= 63
    &&& max4(p.h00 as int, p.h40 as int, p.h04 as int, p.h44 as int) - min4(
        p.h00 as int,
        p.h40 as int,
        p.h04 as int,
        p.h44 as int,
    ) <= 1
}

/// The voxels after the first `k` sites of the regions `rx0..rx0 + nx` ×
/// `rz0..` (row by row in z) stamp their cottages.
pub open spec fn built(
    v: Seq<BlockId>,
    origin: BlockPos,
    seed: u64,
    sites: Seq<SitePlan>,
    rx0: int,
    rz0: int,
    nx: int,
    k: int,
) -> Seq<BlockId>
    decreases k,
{
    if k <= 0 || nx <= 0 {
        v
    } else {
        let j = k - 1;
        let before = built(v, origin, seed, sites, rx0, rz0, nx, j);
        let site = site_spec(seed, rx0 + j % nx, rz0 + j / nx);
        if builds(sites[j]) {
            cottage_spec(
                before,
                origin,
                site.1,
                site.2,
                min4(sites[j].h00 as int, sites[j].h40 as int, sites[j].h04 as int, sites[j].h44 as int),
            )
        } else {
            before
        }
    }
}

/// The structure regions a chunk at `origin` overlaps: `(rx0, rz0, nx, nz)`.
pub open spec fn regions(origin: BlockPos) -> (int, int, int, int) {
    let rx0 = (origin.x - 8) / 80;
    let rx1 = (origin.x + 31) / 80;
    let rz0 = (origin.z - 8) / 80;
    let rz1 = (origin.z + 31) / 80;
    (rx0, rz0, rx1 - rx0 + 1, rz1 - rz0 + 1)
}

/// Whether the site plans fit the regions of the chunk at `origin`, with
/// heights in the stamping range.
pub open spec fn sites_ok(origin: BlockPos, sites: Seq<SitePlan>) -> bool {
    &&& sites.len() == regions(origin).2 * regions(origin).3
    &&& forall|k: int|
        0 <= k < sites.len() ==> coord_ok(#[trigger] sites[k].h00 as int) && coord_ok(sites[k].h40 as int)
            && coord_ok(sites[k].h04 as int) && coord_ok(sites[k].h44 as int)
}

fn min_of(a: i32, b: i32) -> (r: i32)
    ensures
        r == (if a < b { a } else { b }),
{
    if a < b { a } else { b }
}

fn max_of(a: i32, b: i32) -> (r: i32)
    ensures
        r == (if a > b { a } else { b }),
{
    if a > b { a } else { b }
}

/// Place the cottages of the structure regions that overlap the chunk. A
/// region grid makes a cottage straddling a chunk border stamp identically
/// from either side.
fn place_structures(seed: u64, origin: BlockPos, storage: &mut ChunkStorage, sites: &Vec<SitePlan>)
    requires
        old(storage).wf(),
        origin_ok(origin),
        sites_ok(origin, sites@),
    ensures
        final(storage).wf(),
        final(storage)@ == built(
            old(storage)@,
            origin,
            seed,
            sites@,
            regions(origin).0,
            regions(origin).1,
            regions(origin).2,
            regions(origin).2 * regions(origin).3,
        ),
{
    let ghost v = storage@;
    let rx0 = floor_div(origin.x - STRUCTURE_MARGIN, STRUCTURE_REGION);
    let rx1 = floor_div(origin.x + 31, STRUCTURE_REGION);
    let rz0 = floor_div(origin.z - STRUCTURE_MARGIN, STRUCTURE_REGION);
    let rz1 = floor_div(origin.z + 31, STRUCTURE_REGION);
    let nx = rx1 - rx0 + 1;
    proof {
        assert(rx0 <= rx1 && rx1 - rx0 <= 1) by (nonlinear_arith)
            requires
                rx0 == (origin.x - 8) / 80,
                rx1 == (origin.x + 31) / 80,
        ;
        assert(rz0 <= rz1 && rz1 - rz0 <= 1) by (nonlinear_arith)
            requires
                rz0 == (origin.z - 8) / 80,
                rz1 == (origin.z + 31) / 80,
        ;
        assert(-26812501 <= rx0 && rx1 <= 26812501) by (nonlinear_arith)
            requires
                rx0 == (origin.x - 8) / 80,
                rx1 == (origin.x + 31) / 80,
                -2145000000 <= origin.x <= 2145000000,
        ;
        assert(-26812501 <= rz0 && rz1 <= 26812501) by (nonlinear_arith)
            requires
                rz0 == (origin.z - 8) / 80,
                rz1 == (origin.z + 31) / 80,
                -2145000000 <= origin.z <= 2145000000,
        ;
    }
    let n_sites = sites.len();
    let mut k: usize = 0;
    let mut rz = rz0;
    while rz <= rz1
        invariant
            storage.wf(),
            origin_ok(origin),
            sites_ok(origin, sites@),
            regions(origin) == (rx0 as int, rz0 as int, nx as int, rz1 - rz0 + 1),
            rx0 <= rx1 <= rx0 + 1,
            nx == rx1 - rx0 + 1,
            rz0 <= rz <= rz1 + 1,
            rz1 <= rz0 + 1,
            -26812501 <= rx0 && rx1 <= 26812501,
            -26812501 <= rz0 && rz1 <= 26812501,
            n_sites == sites@.len(),
            k == (rz - rz0) * nx,
            storage@ == built(v, origin, seed, sites@, rx0 as int, rz0 as int, nx as int, k as int),
        decreases rz1 + 1 - rz,
    {
        let mut rx = rx0;
        while rx <= rx1
            invariant
                storage.wf(),
                origin_ok(origin),
                sites_ok(origin, sites@),
                regions(origin) == (rx0 as int, rz0 as int, nx as int, rz1 - rz0 + 1),
                rx0 <= rx <= rx1 + 1,
                rx1 <= rx0 + 1,
                nx == rx1 - rx0 + 1,
                rz0 <= rz <= rz1,
                rz1 <= rz0 + 1,
                -26812501 <= rx0 && rx1 <= 26812501,
                -26812501 <= rz0 && rz1 <= 26812501,
                n_sites == sites@.len(),
                k == (rz - rz0) * nx + (rx - rx0),
                storage@ == built(v, origin, seed, sites@, rx0 as int, rz0 as int, nx as int, k as int),
            decreases rx1 + 1 - rx,
        {
            proof {
                assert(k < sites@.len()) by (nonlinear_arith)
                    requires
                        k == (rz - rz0) * nx + (rx - rx0),
                        0 <= rz - rz0 < rz1 - rz0 + 1,
                        0 <= rx - rx0 < nx,
                        sites@.len() == nx * (rz1 - rz0 + 1),
                ;
                assert(k as int % (nx as int) == rx - rx0 && k as int / (nx as int) == rz - rz0)
                    by (nonlinear_arith)
                    requires
                        k == (rz - rz0) * nx + (rx - rx0),
                        0 <= rx - rx0 < nx,
                        0 <= rz - rz0,
                ;
            }
            let plan = sites[k];
            proof {
                assert(coord_ok(sites@[k as int].h00 as int));
            }
            build_site(seed, origin, storage, plan, rx, rz);
            k += 1;
            rx += 1;
        }
        proof {
            assert(k == (rz + 1 - rz0) * nx) by (nonlinear_arith)
                requires
                    k == (rz - rz0) * nx + (rx - rx0),
                    rx == rx1 + 1,
                    nx == rx1 - rx0 + 1,
            ;
        }
        rz += 1;
    }
    proof {
        assert(k == nx * (rz1 - rz0 + 1)) by (nonlinear_arith)
            requires
                k == (rz - rz0) * nx,
                rz == rz1 + 1,
        ;
    }
}

/// Stamp a region's cottage if its site builds one.
fn build_site(seed: u64, origin: BlockPos, storage: &mut ChunkStorage, plan: SitePlan, rx: i32, rz: i32)
    requires
        old(storage).wf(),
        -26812501 <= rx <= 26812501,
        -26812501 <= rz <= 26812501,
        coord_ok(plan.h00 as int),
        coord_ok(plan.h40 as int),
        coord_ok(plan.h04 as int),
        coord_ok(plan.h44 as int),
    ensures
        final(storage).wf(),
        final(storage)@ == (if builds(plan) {
            cottage_spec(
                old(storage)@,
                origin,
                site_spec(seed, rx as int, rz as int).1,
                site_spec(seed, rx as int, rz as int).2,
                min4(plan.h00 as int, plan.h40 as int, plan.h04 as int, plan.h44 as int),
            )
        } else {
            old(storage)@
        }),
{
    let (_roll, bx, bz) = cottage_site(seed, rx, rz);
    assert(coord_ok(bx as int) && coord_ok(bz as int)) by {
        assert(site_spec(seed, rx as int, rz as int).1 == bx);
        assert(site_spec(seed, rx as int, rz as int).2 == bz);
    }
    if plan.accepted && (plan.biome == Biome::Meadow || plan.biome == Biome::Forest) && plan.h00
        >= SEA_LEVEL + 1 {
        let max = max_of(max_of(plan.h00, plan.h40), max_of(plan.h04, plan.h44));
        let min = min_of(min_of(plan.h00, plan.h40), min_of(plan.h04, plan.h44));
        if (max as i64) - (min as i64) <= 1 {
            stamp_cottage(storage, origin, bx, bz, min);
        }
    }
}

/// The voxels of a generated chunk: the terrain pass, then, for chunks that
/// reach sea level and hold ground, decoration and structures.
pub open spec fn generated(seed: u64, origin: BlockPos, plan: TerrainPlan) -> Seq<BlockId> {
    let t = terrain_spec(origin, plan.window@, plan.flags@);
    if any_solid(origin, plan.window@) && origin.y + 31 >= 62 {
        let r = regions(origin);
        built(decorated(t, origin, seed, plan.window@, 1444), origin, seed, plan.sites@, r.0, r.1, r.2, r.2 * r.3)
    } else {
        t
    }
}

/// Whether a chunk position's origin leaves room for the padded passes.
pub open spec fn chunk_ok(pos: ChunkPos) -> bool {
    -67000000 <= pos.x <= 67000000 && -67000000 <= pos.y <= 67000000 && -67000000 <= pos.z <= 67000000
}

/// Whether a plan fits the chunk at `origin`.
pub open spec fn plan_ok(origin: BlockPos, plan: TerrainPlan) -> bool {
    &&& window_ok(plan.window@)
    &&& plan.flags@.len() == 32768
    &&& sites_ok(origin, plan.sites@)
}

/// Whether a chunk position is one [`WorldGenerator::generate_chunk`]
/// takes.
pub fn chunk_in_range(pos: ChunkPos) -> (r: bool)
    ensures
        r == chunk_ok(pos),
{
    -67000000 <= pos.x && pos.x <= 67000000 && -67000000 <= pos.y && pos.y <= 67000000
        && -67000000 <= pos.z && pos.z <= 67000000
}

fn coord_in_range(v: i32) -> (r: bool)
    ensures
        r == coord_ok(v as int),
{
    -2146000000 <= v && v <= 2146000000
}

/// Whether a sampled plan fits the chunk at `origin`: a full window of
/// columns and of voxel flags, one site per structure region, and every
/// surface height in the stamping range.
pub fn plan_fits(origin: BlockPos, plan: &TerrainPlan) -> (r: bool)
    requires
        origin_ok(origin),
    ensures
        r == plan_ok(origin, *plan),
{
    if plan.window.len() != 1444 || plan.flags.len() != 32768 {
        return false;
    }
    let mut k: usize = 0;
    while k < 1444
        invariant
            k <= 1444,
            plan.window@.len() == 1444,
            forall|j: int| 0 <= j < k ==> coord_ok(#[trigger] plan.window@[j].surface as int),
        decreases 1444 - k,
    {
        if !coord_in_range(plan.window[k].surface) {
            return false;
        }
        k += 1;
    }
    let rx0 = floor_div(origin.x - STRUCTURE_MARGIN, STRUCTURE_REGION);
    let rx1 = floor_div(origin.x + 31, STRUCTURE_REGION);
    let rz0 = floor_div(origin.z - STRUCTURE_MARGIN, STRUCTURE_REGION);
    let rz1 = floor_div(origin.z + 31, STRUCTURE_REGION);
    proof {
        assert(rx0 <= rx1 && rx1 - rx0 <= 1) by (nonlinear_arith)
            requires
                rx0 == (origin.x - 8) / 80,
                rx1 == (origin.x + 31) / 80,
        ;
        assert(rz0 <= rz1 && rz1 - rz0 <= 1) by (nonlinear_arith)
            requires
                rz0 == (origin.z - 8) / 80,
                rz1 == (origin.z + 31) / 80,
        ;
        assert(1 <= (rx1 - rx0 + 1) * (rz1 - rz0 + 1) <= 4) by (nonlinear_arith)
            requires
                0 <= rx1 - rx0 <= 1,
                0 <= rz1 - rz0 <= 1,
        ;
    }
    let n = ((rx1 - rx0 + 1) * (rz1 - rz0 + 1)) as usize;
    if plan.sites.len() != n {
        return false;
    }
    let mut k: usize = 0;
    while k < plan.sites.len()
        invariant
            k <= plan.sites@.len(),
            forall|j: int| 0 <= j < k ==> heights_ok(#[trigger] plan.sites@[j]),
        decreases plan.sites@.len() - k,
    {
        let site = plan.sites[k];
        let a = coord_in_range(site.h00);
        let b = coord_in_range(site.h40);
        let c = coord_in_range(site.h04);
        let d = coord_in_range(site.h44);
        if !(a && b && c && d) {
            return false;
        }
        assert(heights_ok(plan.sites@[k as int]));
        k += 1;
    }
    assert forall|j: int| 0 <= j < plan.sites@.len() implies coord_ok(#[trigger] plan.sites@[j].h00 as int)
        && coord_ok(plan.sites@[j].h40 as int) && coord_ok(plan.sites@[j].h04 as int) && coord_ok(
        plan.sites@[j].h44 as int,
    ) by {
        assert(heights_ok(plan.sites@[j]));
    }
    true
}

/// The corner heights of a site are in the stamping range.
spec fn heights_ok(s: SitePlan) -> bool {
    coord_ok(s.h00 as int) && coord_ok(s.h40 as int) && coord_ok(s.h04 as int) && coord_ok(s.h44 as int)
}

/// Deterministic terrain generator: the seed and the permutation tables of
/// its noise fields (height, hill detail, temperature, humidity, caves,
/// ores), each seeded from the world seed with its own offset so the fields
/// are decorrelated.
#[derive(Clone, Debug)]
pub struct WorldGenerator {
    seed: u64,
    height_noise: Perlin,
    detail_noise: Perlin,
    temperature_noise: Perlin,
    humidity_noise: Perlin,
    cave_noise: Perlin,
    ore_noise: Perlin,
}

/// The table of a noise field seeded with `seed`.
pub open spec fn table(seed: u64) -> Seq<u8> {
    Seq::new(512, |k: int| permutation(seed)[k % 256])
}

impl WorldGenerator {
    pub closed spec fn seed_spec(&self) -> u64 {
        self.seed
    }

    /// The six noise tables: height, detail, temperature, humidity, cave,
    /// ore.
    pub closed spec fn tables(&self) -> Seq<Seq<u8>> {
        seq![
            self.height_noise@,
            self.detail_noise@,
            self.temperature_noise@,
            self.humidity_noise@,
            self.cave_noise@,
            self.ore_noise@,
        ]
    }

    pub fn new(seed: u64) -> (r: Self)
        ensures
            r.seed_spec() == seed,
            r.tables() == seq![
                table(seed),
                table(seed ^ 0xA1B2_C3D4),
                table(seed ^ 0x1357_9BDF),
                table(seed ^ 0x2468_ACE0),
                table(seed ^ 0xDEAD_BEEF),
                table(seed ^ 0x0FE5_EED0),
            ],
    {
        WorldGenerator {
            seed,
            height_noise: Perlin::new(seed),
            detail_noise: Perlin::new(seed ^ 0xA1B2_C3D4),
            temperature_noise: Perlin::new(seed ^ 0x1357_9BDF),
            humidity_noise: Perlin::new(seed ^ 0x2468_ACE0),
            cave_noise: Perlin::new(seed ^ 0xDEAD_BEEF),
            ore_noise: Perlin::new(seed ^ 0x0FE5_EED0),
        }
    }

    pub fn seed(&self) -> (r: u64)
        ensures
            r == self.seed_spec(),
    {
        self.seed
    }

    pub fn height_noise(&self) -> (r: &Perlin)
        ensures
            r@ == self.tables()[0],
    {
        &self.height_noise
    }

    pub fn detail_noise(&self) -> (r: &Perlin)
        ensures
            r@ == self.tables()[1],
    {
        &self.detail_noise
    }

    pub fn temperature_noise(&self) -> (r: &Perlin)
        ensures
            r@ == self.tables()[2],
    {
        &self.temperature_noise
    }

    pub fn humidity_noise(&self) -> (r: &Perlin)
        ensures
            r@ == self.tables()[3],
    {
        &self.humidity_noise
    }

    pub fn cave_noise(&self) -> (r: &Perlin)
        ensures
            r@ == self.tables()[4],
    {
        &self.cave_noise
    }

    pub fn ore_noise(&self) -> (r: &Perlin)
        ensures
            r@ == self.tables()[5],
    {
        &self.ore_noise
    }

    /// Generate the storage for one chunk from its sampled plan.
    pub fn generate_chunk(&self, pos: ChunkPos, plan: &TerrainPlan) -> (r: ChunkStorage)
        requires
            chunk_ok(pos),
            plan_ok(
                BlockPos { x: (pos.x * 32) as i32, y: (pos.y * 32) as i32, z: (pos.z * 32) as i32 },
                *plan,
            ),
        ensures
            r.wf(),
            r@ == generated(
                self.seed_spec(),
                BlockPos { x: (pos.x * 32) as i32, y: (pos.y * 32) as i32, z: (pos.z * 32) as i32 },
                *plan,
            ),
    {
        let origin = pos.origin();
        let ghost o = BlockPos { x: (pos.x * 32) as i32, y: (pos.y * 32) as i32, z: (pos.z * 32) as i32 };
        assert(origin == o);
        let mut storage = ChunkStorage::empty();
        let chunk_min_y = origin.y;
        let chunk_max_y = origin.y + 31;
        let mut any_solid_possible = false;
        let ghost t = terrain_spec(o, plan.window@, plan.flags@);
        proof {
            lemma_view_len(&storage);
        }
        let mut lz: i32 = 0;
        while lz < 32
            invariant
                storage.wf(),
                origin == o,
                origin_ok(o),
                plan_ok(o, *plan),
                0 <= lz <= 32,
                t == terrain_spec(o, plan.window@, plan.flags@),
                chunk_min_y == o.y,
                forall|i: int|
                    0 <= i < 32768 ==> #[trigger] storage@[i] == (if voxel_z(i) < lz {
                        t[i]
                    } else {
                        BlockId(0)
                    }),
                any_solid_possible <==> exists|x: int, z: int|
                    0 <= x < 32 && 0 <= z < lz && #[trigger] column_at(plan.window@, x, z).surface
                        >= o.y,
            decreases 32 - lz,
        {
            let mut lx: i32 = 0;
            while lx < 32
                invariant
                    storage.wf(),
                    origin == o,
                    origin_ok(o),
                    plan_ok(o, *plan),
                    0 <= lz < 32,
                    0 <= lx <= 32,
                    t == terrain_spec(o, plan.window@, plan.flags@),
                    chunk_min_y == o.y,
                    forall|i: int|
                        0 <= i < 32768 ==> #[trigger] storage@[i] == (if voxel_z(i) < lz || (voxel_z(i)
                            == lz && voxel_x(i) < lx) {
                            t[i]
                        } else {
                            BlockId(0)
                        }),
                    any_solid_possible <==> exists|x: int, z: int|
                        0 <= x < 32 && 0 <= z < 32 && (z < lz || (z == lz && x < lx))
                            && #[trigger] column_at(plan.window@, x, z).surface >= o.y,
                decreases 32 - lx,
            {
                let col = plan.window[((lz + 3) * WINDOW + (lx + 3)) as usize];
                proof {
                    assert(coord_ok(plan.window@[(lz + 3) * 38 + (lx + 3)].surface as int));
                }
                let surface = col.surface;
                if surface >= chunk_min_y {
                    any_solid_possible = true;
                }
                let mut ly: i32 = 0;
                while ly < 32
                    invariant
                        storage.wf(),
                        origin == o,
                        origin_ok(o),
                        plan_ok(o, *plan),
                        0 <= lz < 32,
                        0 <= lx < 32,
                        0 <= ly <= 32,
                        col == column_at(plan.window@, lx as int, lz as int),
                        surface == col.surface,
                        coord_ok(col.surface as int),
                        t == terrain_spec(o, plan.window@, plan.flags@),
                        forall|i: int|
                            0 <= i < 32768 ==> #[trigger] storage@[i] == (if voxel_z(i) < lz || (voxel_z(
                                i,
                            ) == lz && voxel_x(i) < lx) || (voxel_z(i) == lz && voxel_x(i) == lx
                                && voxel_y(i) < ly) {
                                t[i]
                            } else {
                                BlockId(0)
                            }),
                    decreases 32 - ly,
                {
                    let wy = origin.y + ly;
                    let idx = (lx + lz * 32 + ly * 1024) as usize;
                    proof {
                        lemma_voxel_coords(lx as int, ly as int, lz as int);
                    }
                    let block = terrain_block(wy, surface, col.biome, plan.flags[idx]);
                    let ghost before = storage@;
                    proof {
                        lemma_view_len(&storage);
                    }
                    if !block.is_air() {
                        storage.set(LocalPos::new(lx as u8, ly as u8, lz as u8), block);
                    }
                    proof {
                        assert(t[idx as int] == block);
                        assert forall|i: int| 0 <= i < 32768 implies #[trigger] storage@[i] == (if voxel_z(i)
                            < lz || (voxel_z(i) == lz && voxel_x(i) < lx) || (voxel_z(i) == lz
                            && voxel_x(i) == lx && voxel_y(i) < ly + 1) {
                            t[i]
                        } else {
                            BlockId(0)
                        }) by {
                            lemma_voxel_index(i);
                            if i != idx {
                                assert(storage@[i] == before[i]);
                                if voxel_z(i) == lz && voxel_x(i) == lx && voxel_y(i) == ly {
                                    assert(local_index(voxel_x(i), voxel_y(i), voxel_z(i)) == idx);
                                }
                            }
                        }
                    }
                    ly += 1;
                }
                lx += 1;
            }
            lz += 1;
        }
        proof {
            lemma_view_len(&storage);
            assert(storage@ =~= t);
            assert(any_solid_possible == any_solid(o, plan.window@));
        }
        if any_solid_possible && chunk_max_y >= SEA_LEVEL {
            decorate(self.seed, origin, &mut storage, &plan.window);
            place_structures(self.seed, origin, &mut storage, &plan.sites);
        }
        storage
    }
}

} // verus!
