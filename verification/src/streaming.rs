//! Chunk streaming rules: which chunks should be resident around the player,
//! which are far enough to unload, and which need remeshing. The worker pool,
//! channels and per-frame driving that carry these decisions out live with
//! the game loop.

use crate::coords::{BlockPos, ChunkPos};
use crate::interaction::mark_dirty_with_neighbours;
use crate::world::{block_in, key_of, Chunk, ChunkKey, World};
use vstd::prelude::*;
use vstd::relations::sorted_by;

verus! {

/// Tunable streaming limits.
#[derive(Clone, Copy, Debug)]
pub struct StreamConfig {
    /// Horizontal radius, in chunks, of the loaded region.
    pub view_distance: i32,
    /// Inclusive chunk-Y range that bounds the (finite-height) world column.
    pub min_chunk_y: i32,
    pub max_chunk_y: i32,
    /// Extra chunks kept loaded beyond `view_distance` before unloading, to
    /// avoid thrashing when the player jitters across a border.
    pub unload_margin: i32,
    /// Max generated chunks integrated into the world per update.
    pub max_uploads_per_update: usize,
    /// Max chunks (re)meshed per update.
    pub max_meshes_per_update: usize,
    /// Max new generation jobs submitted per update.
    pub max_jobs_per_update: usize,
}

impl Default for StreamConfig {
    fn default() -> (r: Self)
        ensures
            r.view_distance == 10,
            r.min_chunk_y == 0,
            r.max_chunk_y == 5,
            r.unload_margin == 2,
            r.max_uploads_per_update == 8,
            r.max_meshes_per_update == 6,
            r.max_jobs_per_update == 24,
    {
        StreamConfig {
            view_distance: 10,
            min_chunk_y: 0,
            max_chunk_y: 5,
            unload_margin: 2,
            max_uploads_per_update: 8,
            max_meshes_per_update: 6,
            max_jobs_per_update: 24,
        }
    }
}

/// Streaming statistics for the HUD and profiling.
#[derive(Clone, Copy, Debug)]
pub struct StreamStats {
    pub loaded_chunks: usize,
    pub meshed_chunks: usize,
    pub inflight: usize,
    pub voxel_memory_bytes: usize,
}

impl Default for StreamStats {
    fn default() -> (r: Self)
        ensures
            r.loaded_chunks == 0,
            r.meshed_chunks == 0,
            r.inflight == 0,
            r.voxel_memory_bytes == 0,
    {
        StreamStats { loaded_chunks: 0, meshed_chunks: 0, inflight: 0, voxel_memory_bytes: 0 }
    }
}

/// Whether `pos` is within the horizontal view disc around `center` and the
/// vertical chunk range.
pub open spec fn in_range_spec(config: StreamConfig, pos: ChunkPos, center: ChunkPos) -> bool {
    let dx = pos.x - center.x;
    let dz = pos.z - center.z;
    &&& dx * dx + dz * dz <= config.view_distance * config.view_distance
    &&& config.min_chunk_y <= pos.y <= config.max_chunk_y
}

fn square(v: i64) -> (r: i128)
    requires
        -0x1_0000_0000 <= v <= 0x1_0000_0000,
    ensures
        r == v * v,
        0 <= r <= 0x1_0000_0000_0000_0000,
{
    let w = v as i128;
    proof {
        assert(0 <= w * w <= 0x1_0000_0000_0000_0000) by (nonlinear_arith)
            requires
                -0x1_0000_0000 <= w <= 0x1_0000_0000,
        ;
    }
    w * w
}

/// Whether a chunk should be loaded for a player in chunk `center`.
pub fn in_load_range(config: &StreamConfig, pos: ChunkPos, center: ChunkPos) -> (r: bool)
    ensures
        r == in_range_spec(*config, pos, center),
{
    let dx = pos.x as i64 - center.x as i64;
    let dz = pos.z as i64 - center.z as i64;
    let vd = config.view_distance as i64;
    square(dx) + square(dz) <= square(vd) && pos.y >= config.min_chunk_y && pos.y <= config.max_chunk_y
}

/// Whether a loaded chunk lies beyond the view distance plus the unload
/// margin.
pub open spec fn too_far(config: StreamConfig, pos: ChunkPos, center: ChunkPos) -> bool {
    let dx = pos.x - center.x;
    let dz = pos.z - center.z;
    let limit = config.view_distance + config.unload_margin;
    dx * dx + dz * dz > limit * limit
}

/// The chunk positions around `center` that the view wants, column by
/// column (z, then x) and bottom to top within a column: every position of
/// the view disc and the vertical range.
pub open spec fn view_candidate(config: StreamConfig, center: ChunkPos, dx: int, dz: int, cy: int) -> bool {
    let vd = config.view_distance as int;
    -vd <= dx <= vd && -vd <= dz <= vd && dx * dx + dz * dz <= vd * vd && config.min_chunk_y <= cy
        <= config.max_chunk_y
}

/// Whether the squared view distance, and that of the unload limit, fit
/// an `i32`.
pub open spec fn config_ok(config: StreamConfig) -> bool {
    &&& -46340 <= config.view_distance <= 46340
    &&& -46340 <= config.view_distance + config.unload_margin <= 46340
}

/// Whether a chunk column center keeps the view disc inside `i32`.
pub open spec fn center_ok(center: ChunkPos) -> bool {
    -1000000000 <= center.x <= 1000000000 && -1000000000 <= center.z <= 1000000000
}

/// Hysteresis: with a non-negative view distance and unload margin, a
/// chunk the view wants is never one to unload, so streaming does not load
/// and drop the same chunk.
pub proof fn lemma_wanted_is_kept(config: StreamConfig, pos: ChunkPos, center: ChunkPos)
    requires
        config.view_distance >= 0,
        config.unload_margin >= 0,
        in_range_spec(config, pos, center),
    ensures
        !too_far(config, pos, center),
{
    let vd = config.view_distance as int;
    let limit = vd + config.unload_margin;
    assert(vd * vd <= limit * limit) by (nonlinear_arith)
        requires
            0 <= vd <= limit,
    ;
}

/// The wanted chunks that are neither loaded nor being generated, in the
/// view's enumeration order (z offset, then x offset, then height). The
/// caller orders them nearest first.
pub fn missing_chunks(
    config: &StreamConfig,
    center: ChunkPos,
    world: &World,
    inflight: &Vec<ChunkPos>,
) -> (r: Vec<ChunkPos>)
    requires
        config_ok(*config),
        center_ok(center),
    ensures
        forall|k: int|
            0 <= k < r@.len() ==> {
                &&& view_candidate(
                    *config,
                    center,
                    (#[trigger] r@[k]).x - center.x,
                    r@[k].z - center.z,
                    r@[k].y as int,
                )
                &&& !world@.contains_key(key_of(r@[k]))
                &&& !inflight@.contains(r@[k])
            },
        forall|dx: int, dz: int, cy: int|
            view_candidate(*config, center, dx, dz, cy) && !world@.contains_key(
                ((center.x + dx) as i32, cy as i32, (center.z + dz) as i32),
            ) && !inflight@.contains(
                ChunkPos { x: (center.x + dx) as i32, y: cy as i32, z: (center.z + dz) as i32 },
            ) ==> r@.contains(
                ChunkPos { x: (center.x + dx) as i32, y: cy as i32, z: (center.z + dz) as i32 },
            ),
        r@.no_duplicates(),
{
    let vd = config.view_distance;
    let mut wanted: Vec<ChunkPos> = Vec::new();
    if vd < 0 {
        return wanted;
    }
    let mut dz: i32 = -vd;
    while dz <= vd
        invariant
            config_ok(*config),
            center_ok(center),
            vd == config.view_distance,
            -vd <= dz <= vd + 1,
            forall|k: int|
                0 <= k < wanted@.len() ==> {
                    &&& view_candidate(
                        *config,
                        center,
                        (#[trigger] wanted@[k]).x - center.x,
                        wanted@[k].z - center.z,
                        wanted@[k].y as int,
                    )
                    &&& wanted@[k].z - center.z < dz
                    &&& !world@.contains_key(key_of(wanted@[k]))
                    &&& !inflight@.contains(wanted@[k])
                },
            forall|ex: int, ez: int, cy: int|
                view_candidate(*config, center, ex, ez, cy) && ez < dz && !world@.contains_key(
                    ((center.x + ex) as i32, cy as i32, (center.z + ez) as i32),
                ) && !inflight@.contains(
                    ChunkPos { x: (center.x + ex) as i32, y: cy as i32, z: (center.z + ez) as i32 },
                ) ==> wanted@.contains(
                    ChunkPos { x: (center.x + ex) as i32, y: cy as i32, z: (center.z + ez) as i32 },
                ),
            wanted@.no_duplicates(),
        decreases vd + 1 - dz,
    {
        let mut dx: i32 = -vd;
        while dx <= vd
            invariant
                config_ok(*config),
                center_ok(center),
                vd == config.view_distance,
                -vd <= dz <= vd,
                -vd <= dx <= vd + 1,
                forall|k: int|
                    0 <= k < wanted@.len() ==> {
                        &&& view_candidate(
                            *config,
                            center,
                            (#[trigger] wanted@[k]).x - center.x,
                            wanted@[k].z - center.z,
                            wanted@[k].y as int,
                        )
                        &&& (wanted@[k].z - center.z < dz || (wanted@[k].z - center.z == dz
                            && wanted@[k].x - center.x < dx))
                        &&& !world@.contains_key(key_of(wanted@[k]))
                        &&& !inflight@.contains(wanted@[k])
                    },
                forall|ex: int, ez: int, cy: int|
                    view_candidate(*config, center, ex, ez, cy) && (ez < dz || (ez == dz && ex < dx))
                        && !world@.contains_key(
                        ((center.x + ex) as i32, cy as i32, (center.z + ez) as i32),
                    ) && !inflight@.contains(
                        ChunkPos { x: (center.x + ex) as i32, y: cy as i32, z: (center.z + ez) as i32 },
                    ) ==> wanted@.contains(
                        ChunkPos { x: (center.x + ex) as i32, y: cy as i32, z: (center.z + ez) as i32 },
                    ),
                wanted@.no_duplicates(),
            decreases vd + 1 - dx,
        {
            let in_disc = square(dx as i64) + square(dz as i64) <= square(vd as i64);
            if in_disc {
                let mut cy: i64 = config.min_chunk_y as i64;
                while cy <= config.max_chunk_y as i64
                    invariant
                        config_ok(*config),
                        center_ok(center),
                        vd == config.view_distance,
                        -vd <= dz <= vd,
                        -vd <= dx <= vd,
                        dx * dx + dz * dz <= vd * vd,
                        config.min_chunk_y <= cy,
                        forall|k: int|
                            0 <= k < wanted@.len() ==> {
                                &&& view_candidate(
                                    *config,
                                    center,
                                    (#[trigger] wanted@[k]).x - center.x,
                                    wanted@[k].z - center.z,
                                    wanted@[k].y as int,
                                )
                                &&& (wanted@[k].z - center.z < dz || (wanted@[k].z - center.z == dz
                                    && wanted@[k].x - center.x < dx) || (wanted@[k].z - center.z == dz
                                    && wanted@[k].x - center.x == dx && wanted@[k].y < cy))
                                &&& !world@.contains_key(key_of(wanted@[k]))
                                &&& !inflight@.contains(wanted@[k])
                            },
                        forall|ex: int, ez: int, ey: int|
                            view_candidate(*config, center, ex, ez, ey) && (ez < dz || (ez == dz && ex < dx)
                                || (ez == dz && ex == dx && ey < cy)) && !world@.contains_key(
                                ((center.x + ex) as i32, ey as i32, (center.z + ez) as i32),
                            ) && !inflight@.contains(
                                ChunkPos { x: (center.x + ex) as i32, y: ey as i32, z: (center.z + ez) as i32 },
                            ) ==> wanted@.contains(
                                ChunkPos { x: (center.x + ex) as i32, y: ey as i32, z: (center.z + ez) as i32 },
                            ),
                        wanted@.no_duplicates(),
                    decreases config.max_chunk_y + 1 - cy,
                {
                    let p = ChunkPos::new(center.x + dx, cy as i32, center.z + dz);
                    if !world.contains_chunk(p) && !contains_pos(inflight, p) {
                        let ghost before = wanted@;
                        wanted.push(p);
                        proof {
                            assert forall|a: int, b: int|
                                0 <= a < wanted@.len() && 0 <= b < wanted@.len() && a != b implies wanted@[a]
                                != wanted@[b] by {
                                if a < before.len() && b < before.len() {
                                } else if a == before.len() {
                                    assert(wanted@[b].y < cy || wanted@[b].x - center.x < dx || wanted@[b].z
                                        - center.z < dz);
                                } else {
                                    assert(wanted@[a].y < cy || wanted@[a].x - center.x < dx || wanted@[a].z
                                        - center.z < dz);
                                }
                            }
                            assert forall|ex: int, ez: int, ey: int|
                                view_candidate(*config, center, ex, ez, ey) && (ez < dz || (ez == dz && ex
                                    < dx) || (ez == dz && ex == dx && ey < cy + 1)) && !world@.contains_key(
                                    ((center.x + ex) as i32, ey as i32, (center.z + ez) as i32),
                                ) && !inflight@.contains(
                                    ChunkPos {
                                        x: (center.x + ex) as i32,
                                        y: ey as i32,
                                        z: (center.z + ez) as i32,
                                    },
                                ) implies wanted@.contains(
                                ChunkPos { x: (center.x + ex) as i32, y: ey as i32, z: (center.z + ez) as i32 },
                            ) by {
                                let q = ChunkPos {
                                    x: (center.x + ex) as i32,
                                    y: ey as i32,
                                    z: (center.z + ez) as i32,
                                };
                                if ez == dz && ex == dx && ey == cy {
                                    assert(wanted@[before.len() as int] == q);
                                } else {
                                    assert(before.contains(q));
                                    let w = choose|w: int| 0 <= w < before.len() && before[w] == q;
                                    assert(wanted@[w] == q);
                                }
                            }
                        }
                    }
                    cy += 1;
                }
            }
            dx += 1;
        }
        dz += 1;
    }
    wanted
}

fn contains_pos(v: &Vec<ChunkPos>, p: ChunkPos) -> (r: bool)
    ensures
        r == v@.contains(p),
{
    let mut k: usize = 0;
    while k < v.len()
        invariant
            k <= v@.len(),
            forall|q: int| 0 <= q < k ==> v@[q] != p,
        decreases v@.len() - k,
    {
        if v[k] == p {
            assert(v@[k as int] == p);
            return true;
        }
        k += 1;
    }
    false
}

/// The loaded chunks to unload: those beyond the view distance plus the
/// unload margin, in the world's iteration order.
pub fn unload_candidates(config: &StreamConfig, center: ChunkPos, world: &World) -> (r: Vec<ChunkPos>)
    requires
        world.wf(),
    ensures
        forall|k: int|
            0 <= k < r@.len() ==> world@.contains_key(key_of(#[trigger] r@[k])) && too_far(
                *config,
                r@[k],
                center,
            ),
        forall|key: (i32, i32, i32)|
            #[trigger] world@.contains_key(key) && too_far(*config, world@[key].pos, center)
                ==> r@.contains(world@[key].pos),
        r@.no_duplicates(),
{
    let chunks = world.iter_chunks();
    let limit = config.view_distance as i64 + config.unload_margin as i64;
    let limit_sq = square(limit);
    let mut out: Vec<ChunkPos> = Vec::new();
    let mut k: usize = 0;
    while k < chunks.len()
        invariant
            world.wf(),
            k <= chunks@.len(),
            limit == config.view_distance + config.unload_margin,
            limit_sq == limit * limit,
            forall|i: int|
                0 <= i < chunks@.len() ==> world@.contains_key(key_of(#[trigger] chunks@[i].pos))
                    && world@[key_of(chunks@[i].pos)] == *chunks@[i],
            forall|key: (i32, i32, i32)|
                #[trigger] world@.contains_key(key) ==> exists|i: int|
                    0 <= i < chunks@.len() && key_of(#[trigger] chunks@[i].pos) == key,
            forall|q: int|
                0 <= q < out@.len() ==> world@.contains_key(key_of(#[trigger] out@[q])) && too_far(
                    *config,
                    out@[q],
                    center,
                ),
            forall|i: int|
                0 <= i < k && too_far(*config, (#[trigger] chunks@[i]).pos, center) ==> out@.contains(
                    chunks@[i].pos,
                ),
            forall|i: int, j: int| 0 <= i < j < chunks@.len() ==> chunks@[i].pos != chunks@[j].pos,
            forall|q: int|
                0 <= q < out@.len() ==> exists|i: int|
                    0 <= i < k && (#[trigger] chunks@[i]).pos == #[trigger] out@[q],
            out@.no_duplicates(),
        decreases chunks@.len() - k,
    {
        let c = chunks[k];
        let dx = c.pos.x as i64 - center.x as i64;
        let dz = c.pos.z as i64 - center.z as i64;
        if square(dx) + square(dz) > limit_sq {
            let ghost before = out@;
            out.push(c.pos);
            proof {
                assert forall|q: int| 0 <= q < before.len() implies before[q] != c.pos by {
                    let i = choose|i: int| 0 <= i < k && (#[trigger] chunks@[i]).pos == before[q];
                }
                assert forall|a: int, b: int| 0 <= a < b < out@.len() implies out@[a] != out@[b] by {
                    if b < before.len() {
                        assert(out@[a] == before[a] && out@[b] == before[b]);
                    } else {
                        assert(out@[a] == before[a]);
                    }
                }
                assert forall|q: int| 0 <= q < out@.len() implies exists|i: int|
                    0 <= i < k + 1 && (#[trigger] chunks@[i]).pos == #[trigger] out@[q] by {
                    if q < before.len() {
                        let i = choose|i: int| 0 <= i < k && (#[trigger] chunks@[i]).pos == before[q];
                        assert(chunks@[i].pos == out@[q]);
                    } else {
                        assert(chunks@[k as int].pos == out@[q]);
                    }
                }
                assert forall|i: int|
                    0 <= i < k + 1 && too_far(*config, (#[trigger] chunks@[i]).pos, center) implies out@.contains(
                    chunks@[i].pos,
                ) by {
                    if i == k {
                        assert(out@[before.len() as int] == chunks@[i].pos);
                    } else {
                        let w = choose|w: int| 0 <= w < before.len() && before[w] == chunks@[i].pos;
                        assert(out@[w] == chunks@[i].pos);
                    }
                }
            }
        }
        k += 1;
    }
    proof {
        assert forall|key: (i32, i32, i32)|
            #[trigger] world@.contains_key(key) && too_far(*config, world@[key].pos, center) implies out@.contains(
            world@[key].pos,
        ) by {
            let i = choose|i: int| 0 <= i < chunks@.len() && key_of(#[trigger] chunks@[i].pos) == key;
            assert(world@[key_of(chunks@[i].pos)] == *chunks@[i]);
        }
    }
    out
}

/// The loaded chunks whose mesh is stale, in the world's iteration order.
pub fn dirty_chunks(world: &World) -> (r: Vec<ChunkPos>)
    requires
        world.wf(),
    ensures
        forall|k: int|
            0 <= k < r@.len() ==> world@.contains_key(key_of(#[trigger] r@[k])) && world@[key_of(
                r@[k],
            )].dirty,
        forall|key: (i32, i32, i32)|
            #[trigger] world@.contains_key(key) && world@[key].dirty ==> r@.contains(world@[key].pos),
        r@.no_duplicates(),
{
    let chunks = world.iter_chunks();
    let mut out: Vec<ChunkPos> = Vec::new();
    let mut k: usize = 0;
    while k < chunks.len()
        invariant
            world.wf(),
            k <= chunks@.len(),
            forall|i: int|
                0 <= i < chunks@.len() ==> world@.contains_key(key_of(#[trigger] chunks@[i].pos))
                    && world@[key_of(chunks@[i].pos)] == *chunks@[i],
            forall|key: (i32, i32, i32)|
                #[trigger] world@.contains_key(key) ==> exists|i: int|
                    0 <= i < chunks@.len() && key_of(#[trigger] chunks@[i].pos) == key,
            forall|q: int|
                0 <= q < out@.len() ==> world@.contains_key(key_of(#[trigger] out@[q])) && world@[key_of(
                    out@[q],
                )].dirty,
            forall|i: int|
                0 <= i < k && (#[trigger] chunks@[i]).dirty ==> out@.contains(chunks@[i].pos),
            forall|i: int, j: int| 0 <= i < j < chunks@.len() ==> chunks@[i].pos != chunks@[j].pos,
            forall|q: int|
                0 <= q < out@.len() ==> exists|i: int|
                    0 <= i < k && (#[trigger] chunks@[i]).pos == #[trigger] out@[q],
            out@.no_duplicates(),
        decreases chunks@.len() - k,
    {
        let c = chunks[k];
        if c.dirty {
            let ghost before = out@;
            out.push(c.pos);
            proof {
                assert forall|q: int| 0 <= q < before.len() implies before[q] != c.pos by {
                    let i = choose|i: int| 0 <= i < k && (#[trigger] chunks@[i]).pos == before[q];
                }
                assert forall|a: int, b: int| 0 <= a < b < out@.len() implies out@[a] != out@[b] by {
                    if b < before.len() {
                        assert(out@[a] == before[a] && out@[b] == before[b]);
                    } else {
                        assert(out@[a] == before[a]);
                    }
                }
                assert forall|q: int| 0 <= q < out@.len() implies exists|i: int|
                    0 <= i < k + 1 && (#[trigger] chunks@[i]).pos == #[trigger] out@[q] by {
                    if q < before.len() {
                        let i = choose|i: int| 0 <= i < k && (#[trigger] chunks@[i]).pos == before[q];
                        assert(chunks@[i].pos == out@[q]);
                    } else {
                        assert(chunks@[k as int].pos == out@[q]);
                    }
                }
                assert forall|i: int| 0 <= i < k + 1 && (#[trigger] chunks@[i]).dirty implies out@.contains(
                    chunks@[i].pos,
                ) by {
                    if i == k {
                        assert(out@[before.len() as int] == chunks@[i].pos);
                    } else {
                        let w = choose|w: int| 0 <= w < before.len() && before[w] == chunks@[i].pos;
                        assert(out@[w] == chunks@[i].pos);
                    }
                }
            }
        }
        k += 1;
    }
    proof {
        assert forall|key: (i32, i32, i32)| #[trigger] world@.contains_key(key) && world@[key].dirty implies out@.contains(
            world@[key].pos,
        ) by {
            let i = choose|i: int| 0 <= i < chunks@.len() && key_of(#[trigger] chunks@[i].pos) == key;
            assert(world@[key_of(chunks@[i].pos)] == *chunks@[i]);
        }
    }
    out
}


/// Squared distance between two chunk positions.
pub open spec fn chunk_dist(p: ChunkPos, c: ChunkPos) -> int {
    (p.x - c.x) * (p.x - c.x) + (p.y - c.y) * (p.y - c.y) + (p.z - c.z) * (p.z - c.z)
}

/// `r` is `v` reordered nearest to `c` first, positions at equal distance
/// keeping their order in `v`; entry `i` of `r` is entry `idx[i]` of `v`.
pub open spec fn stable_nearest(v: Seq<ChunkPos>, r: Seq<ChunkPos>, c: ChunkPos, idx: Seq<int>) -> bool {
    &&& r.len() == v.len()
    &&& idx.len() == v.len()
    &&& forall|i: int| 0 <= i < r.len() ==> 0 <= #[trigger] idx[i] < v.len() && r[i] == v[idx[i]]
    &&& forall|i: int, j: int|
        0 <= i < j < r.len() ==> chunk_dist(#[trigger] r[i], c) < chunk_dist(#[trigger] r[j], c) || (
        chunk_dist(r[i], c) == chunk_dist(r[j], c) && idx[i] < idx[j])
}

/// Indices of `v` ordered by the distance of their positions to `c`, ties
/// by index.
pub open spec fn nearer_index(v: Seq<ChunkPos>, c: ChunkPos) -> spec_fn(int, int) -> bool {
    |a: int, b: int|
        chunk_dist(v[a], c) < chunk_dist(v[b], c) || (chunk_dist(v[a], c) == chunk_dist(v[b], c) && a <= b)
}

/// The order of `r` as indices of `v` lists every index of `v` once.
proof fn lemma_order_is_permutation(v: Seq<ChunkPos>, r: Seq<ChunkPos>, c: ChunkPos, idx: Seq<int>)
    requires
        stable_nearest(v, r, c, idx),
    ensures
        sorted_by(idx, nearer_index(v, c)),
        forall|m: int| #[trigger] idx.to_multiset().count(m) == (if 0 <= m < v.len() { 1nat } else { 0nat }),
{
    broadcast use vstd::seq_lib::group_to_multiset_ensures;

    let n = v.len() as int;
    assert forall|i: int, j: int| 0 <= i < j < idx.len() implies #[trigger] nearer_index(v, c)(idx[i], idx[j]) by {
        assert(r[i] == v[idx[i]] && r[j] == v[idx[j]]);
    }
    assert forall|i: int, j: int| 0 <= i < idx.len() && 0 <= j < idx.len() && i != j implies idx[i] != idx[j] by {
        assert(r[i] == v[idx[i]] && r[j] == v[idx[j]]);
        if i < j {
            assert(chunk_dist(r[i], c) < chunk_dist(r[j], c) || idx[i] < idx[j]);
        } else {
            assert(chunk_dist(r[j], c) < chunk_dist(r[i], c) || idx[j] < idx[i]);
        }
    }
    assert(idx.no_duplicates());
    idx.unique_seq_to_set();
    vstd::set_lib::lemma_int_range(0, n);
    let full = vstd::set_lib::set_int_range(0, n);
    assert forall|m: int| idx.to_set().contains(m) implies full.contains(m) by {
        let i = choose|i: int| 0 <= i < idx.len() && idx[i] == m;
        assert(0 <= idx[i] < n);
    }
    vstd::seq_lib::seq_to_set_is_finite(idx);
    vstd::set_lib::lemma_subset_equality(idx.to_set(), full);
    idx.lemma_multiset_has_no_duplicates();
    assert forall|m: int| #[trigger] idx.to_multiset().count(m) == (if 0 <= m < v.len() { 1nat } else { 0nat }) by {
        if 0 <= m < n {
            assert(full.contains(m));
            assert(idx.to_set().contains(m));
            assert(idx.contains(m));
        } else {
            assert(!full.contains(m));
            assert(!idx.to_set().contains(m));
            assert(!idx.contains(m));
        }
    }
}

/// The nearest-first order is unique: two reorderings of `v` that are both
/// nearest-`c`-first with ties in the order of `v` are equal.
pub proof fn lemma_nearest_first_unique(
    v: Seq<ChunkPos>,
    c: ChunkPos,
    r1: Seq<ChunkPos>,
    idx1: Seq<int>,
    r2: Seq<ChunkPos>,
    idx2: Seq<int>,
)
    requires
        stable_nearest(v, r1, c, idx1),
        stable_nearest(v, r2, c, idx2),
    ensures
        r1 == r2,
{
    let leq = nearer_index(v, c);
    lemma_order_is_permutation(v, r1, c, idx1);
    lemma_order_is_permutation(v, r2, c, idx2);
    assert(idx1.to_multiset() =~= idx2.to_multiset());
    assert(vstd::relations::total_ordering(leq));
    vstd::seq_lib::lemma_sorted_unique(idx1, idx2, leq);
    assert forall|i: int| 0 <= i < r1.len() implies r1[i] == r2[i] by {
        assert(r1[i] == v[idx1[i]] && r2[i] == v[idx2[i]]);
    }
    assert(r1 =~= r2);
}

/// The squared distance, exact for every pair of positions.
fn dist_key(p: ChunkPos, c: ChunkPos) -> (r: i128)
    ensures
        r == chunk_dist(p, c),
{
    let dx = p.x as i128 - c.x as i128;
    let dy = p.y as i128 - c.y as i128;
    let dz = p.z as i128 - c.z as i128;
    assert(0 <= dx * dx <= 0x1_0000_0000_0000_0000) by (nonlinear_arith)
        requires
            -0x1_0000_0000 <= dx <= 0x1_0000_0000,
    ;
    assert(0 <= dy * dy <= 0x1_0000_0000_0000_0000) by (nonlinear_arith)
        requires
            -0x1_0000_0000 <= dy <= 0x1_0000_0000,
    ;
    assert(0 <= dz * dz <= 0x1_0000_0000_0000_0000) by (nonlinear_arith)
        requires
            -0x1_0000_0000 <= dz <= 0x1_0000_0000,
    ;
    dx * dx + dy * dy + dz * dz
}

/// The positions of `v` ordered nearest to `center` first; positions at
/// the same distance keep their order in `v` (a stable sort by distance).
pub fn nearest_first(v: &Vec<ChunkPos>, center: ChunkPos) -> (r: Vec<ChunkPos>)
    ensures
        exists|idx: Seq<int>| stable_nearest(v@, r@, center, idx),
{
    let mut r: Vec<ChunkPos> = Vec::new();
    let mut keys: Vec<i128> = Vec::new();
    let ghost mut idx: Seq<int> = Seq::empty();
    let mut k: usize = 0;
    while k < v.len()
        invariant
            k <= v@.len(),
            stable_nearest(v@.take(k as int), r@, center, idx),
            keys@.len() == r@.len(),
            forall|i: int| 0 <= i < r@.len() ==> #[trigger] keys@[i] == chunk_dist(r@[i], center),
        decreases v@.len() - k,
    {
        let x = v[k];
        let kx = dist_key(x, center);
        let mut p: usize = 0;
        while p < r.len() && keys[p] <= kx
            invariant
                p <= r@.len(),
                keys@.len() == r@.len(),
                forall|i: int| 0 <= i < p ==> #[trigger] keys@[i] <= kx,
            decreases r@.len() - p,
        {
            p += 1;
        }
        let ghost r0 = r@;
        let ghost keys0 = keys@;
        let ghost idx0 = idx;
        let ghost pre = v@.take(k as int);
        let ghost post = v@.take(k as int + 1);
        proof {
            assert forall|j: int| p <= j < r0.len() implies chunk_dist(#[trigger] r0[j], center) > kx by {
                assert(chunk_dist(r0[p as int], center) > kx);
                if j > p {
                    assert(chunk_dist(r0[p as int], center) <= chunk_dist(r0[j], center));
                }
            }
        }
        r.insert(p, x);
        keys.insert(p, kx);
        proof {
            idx = idx0.insert(p as int, k as int);
            assert forall|i: int| 0 <= i < r@.len() implies 0 <= #[trigger] idx[i] < post.len() && r@[i]
                == post[idx[i]] by {
                if i < p {
                    assert(r@[i] == r0[i] && idx[i] == idx0[i]);
                    assert(r0[i] == pre[idx0[i]]);
                } else if i == p {
                    assert(r@[i] == x && idx[i] == k);
                } else {
                    assert(r@[i] == r0[i - 1] && idx[i] == idx0[i - 1]);
                    assert(r0[i - 1] == pre[idx0[i - 1]]);
                }
            }
            assert forall|i: int, j: int| 0 <= i < j < r@.len() implies chunk_dist(#[trigger] r@[i], center)
                < chunk_dist(#[trigger] r@[j], center) || (chunk_dist(r@[i], center) == chunk_dist(
                r@[j],
                center,
            ) && idx[i] < idx[j]) by {
                if j < p {
                    assert(r@[i] == r0[i] && r@[j] == r0[j]);
                } else if j == p {
                    assert(r@[i] == r0[i] && keys0[i] == chunk_dist(r0[i], center));
                    assert(keys0[i] <= kx);
                    assert(idx0[i] < k);
                } else if i < p {
                    assert(r@[i] == r0[i] && r@[j] == r0[j - 1]);
                    assert(keys0[i] == chunk_dist(r0[i], center) && keys0[i] <= kx);
                } else if i == p {
                    assert(r@[j] == r0[j - 1]);
                } else {
                    assert(r@[i] == r0[i - 1] && r@[j] == r0[j - 1]);
                }
            }
            assert forall|i: int| 0 <= i < r@.len() implies #[trigger] keys@[i] == chunk_dist(
                r@[i],
                center,
            ) by {
                if i < p {
                    assert(keys@[i] == keys0[i] && r@[i] == r0[i]);
                } else if i > p {
                    assert(keys@[i] == keys0[i - 1] && r@[i] == r0[i - 1]);
                }
            }
        }
        k += 1;
    }
    proof {
        assert(v@.take(k as int) =~= v@);
    }
    r
}


/// The edit store after unloading the chunk at `pos` from `world`: a
/// player-edited chunk's storage is kept so its edits survive.
pub open spec fn stored_edits(
    world: Map<ChunkKey, Chunk>,
    edits: Map<ChunkKey, Chunk>,
    pos: ChunkPos,
    modified: bool,
) -> Map<ChunkKey, Chunk> {
    let k = key_of(pos);
    if world.contains_key(k) && modified {
        edits.insert(k, Chunk { pos, storage: world[k].storage, dirty: true })
    } else {
        edits
    }
}

/// Unload the chunk at `pos`, moving its storage into the edit store when
/// the player edited it. Returns whether a chunk was loaded there.
pub fn unload_chunk(world: &mut World, edits: &mut World, pos: ChunkPos, modified: bool) -> (r: bool)
    requires
        old(world).wf(),
        old(edits).wf(),
    ensures
        final(world).wf(),
        final(edits).wf(),
        r == old(world)@.contains_key(key_of(pos)),
        final(world)@ == old(world)@.remove(key_of(pos)),
        final(edits)@ == stored_edits(old(world)@, old(edits)@, pos, modified),
{
    match world.remove_chunk(pos) {
        Some(chunk) => {
            proof {
                old(world).lemma_loaded_chunk(key_of(pos));
            }
            if modified {
                edits.insert_chunk(pos, chunk.storage);
            }
            true
        },
        None => false,
    }
}

/// The world after bringing back the chunk at `pos` from the edit store
/// `edits`, when the store holds it: the chunk is loaded with the stored
/// storage, every other chunk keeps its position and blocks.
pub open spec fn restored(
    before: Map<ChunkKey, Chunk>,
    edits: Map<ChunkKey, Chunk>,
    pos: ChunkPos,
    after: Map<ChunkKey, Chunk>,
) -> bool {
    let k = key_of(pos);
    if edits.contains_key(k) {
        &&& after.dom() == before.dom().insert(k)
        &&& after[k].pos == pos
        &&& after[k].storage == edits[k].storage
        &&& forall|j: ChunkKey|
            #[trigger] after.contains_key(j) && j != k ==> after[j].pos == before[j].pos && after[j].storage
                == before[j].storage
    } else {
        after == before
    }
}

/// Bring back a player-edited chunk: when the edit store holds `pos`, its
/// storage moves into the world, the chunk and its loaded neighbours are
/// marked for remeshing, and `true` is returned; otherwise nothing changes
/// and the chunk is to be generated.
pub fn restore_chunk(world: &mut World, edits: &mut World, pos: ChunkPos) -> (r: bool)
    requires
        old(world).wf(),
        old(edits).wf(),
        i32::MIN < pos.x < i32::MAX,
        i32::MIN < pos.y < i32::MAX,
        i32::MIN < pos.z < i32::MAX,
    ensures
        final(world).wf(),
        final(edits).wf(),
        r == old(edits)@.contains_key(key_of(pos)),
        final(edits)@ == old(edits)@.remove(key_of(pos)),
        restored(old(world)@, old(edits)@, pos, final(world)@),
        r ==> final(world)@[key_of(pos)].dirty,
{
    let ghost w0 = world@;
    let ghost e0 = edits@;
    match edits.remove_chunk(pos) {
        Some(chunk) => {
            proof {
                old(edits).lemma_loaded_chunk(key_of(pos));
            }
            world.insert_chunk(pos, chunk.storage);
            let ghost w1 = world@;
            mark_dirty_with_neighbours(world, pos);
            proof {
                let k = key_of(pos);
                assert(world@.dom() =~= w0.dom().insert(k));
                assert(world@.contains_key(k));
                assert(world@[k].pos == w1[k].pos && world@[k].storage == w1[k].storage);
                assert forall|j: ChunkKey| #[trigger] world@.contains_key(j) && j != k implies world@[j].pos
                    == w0[j].pos && world@[j].storage == w0[j].storage by {
                    assert(w1.contains_key(j));
                }
            }
            true
        },
        None => false,
    }
}

/// Player edits persist across unloading: unloading an edited chunk and
/// bringing it back from the edit store leaves every position of the world
/// reading as before.
pub proof fn lemma_edits_survive_unload(
    world: Map<ChunkKey, Chunk>,
    edits: Map<ChunkKey, Chunk>,
    pos: ChunkPos,
    after: Map<ChunkKey, Chunk>,
    q: BlockPos,
)
    requires
        world.contains_key(key_of(pos)),
        key_of(world[key_of(pos)].pos) == key_of(pos),
        restored(world.remove(key_of(pos)), stored_edits(world, edits, pos, true), pos, after),
    ensures
        block_in(after, q) == block_in(world, q),
{
}

} // verus!
