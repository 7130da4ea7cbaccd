//! Chunk borders are seamless: a generated chunk holds, at every voxel, the
//! block of one world-wide function of the sampled columns, cave and ore
//! flags and structure sites around that voxel. Trees and cottages that
//! straddle a border therefore come out whole on both sides, whatever order
//! the chunks are generated in.

use crate::biome::Biome;
use crate::block::BlockId;
use crate::coords::BlockPos;
use crate::generator::{
    any_solid, blob_tree_spec, box_shape, builds, built, cell_shape, column_at, cottage_spec, decorated,
    flora_block, flora_spec, generated, grow_column, lemma_voxel_index, min4, painted, pine_spec, plan_ok,
    regions, shape_spec, site_spec, terrain_block_spec, terrain_spec, tree_spec, voxel_x, voxel_y,
    voxel_z, ColumnPlan, Growth, Shape, SitePlan, TerrainPlan,
};
use crate::noise::{hash_coords_spec, mix_out, mix_step};
use vstd::prelude::*;

verus! {

/// The block a painting step leaves at one position that held `val`.
pub open spec fn paint_pt(
    val: BlockId,
    f: spec_fn(int, int, int) -> Option<BlockId>,
    x: int,
    y: int,
    z: int,
    overwrite: bool,
) -> BlockId {
    match f(x, y, z) {
        Some(b) => if overwrite || val == BlockId(0) {
            b
        } else {
            val
        },
        None => val,
    }
}

/// The world position of voxel `i` of the chunk at `origin`.
pub open spec fn wpos(origin: BlockPos, i: int) -> (int, int, int) {
    (origin.x + voxel_x(i), origin.y + voxel_y(i), origin.z + voxel_z(i))
}

proof fn lemma_painted_pt(
    v: Seq<BlockId>,
    origin: BlockPos,
    f: spec_fn(int, int, int) -> Option<BlockId>,
    overwrite: bool,
    i: int,
)
    requires
        0 <= i < v.len(),
    ensures
        painted(v, origin, f, overwrite).len() == v.len(),
        painted(v, origin, f, overwrite)[i] == paint_pt(
            v[i],
            f,
            wpos(origin, i).0,
            wpos(origin, i).1,
            wpos(origin, i).2,
            overwrite,
        ),
{
}

/// What growing column `(wx, wz)` (plan `col`) leaves at `(x, y, z)` that
/// held `val`.
pub open spec fn grow_pt(val: BlockId, seed: u64, col: ColumnPlan, wx: int, wz: int, x: int, y: int, z: int) -> BlockId {
    if col.surface < 62 {
        val
    } else {
        let draw = mix_out(mix_step(mix_step(hash_coords_spec(seed ^ 0x5EED, wx as i32, wz as i32))));
        let surface = col.surface as int;
        let base = surface + 1;
        match col.growth {
            Growth::Tree => if col.biome == Biome::SnowyPeaks {
                let th = 6 + (draw % 3) as int;
                let trunk = paint_pt(val, box_shape(wx, wx, base, base + th - 1, wz, wz, BlockId(6)), x, y, z, true);
                paint_pt(
                    trunk,
                    shape_spec(Shape::Crown { wx: wx as i32, wz: wz as i32, base: (base + th - 4) as i32, leaf: BlockId(7) }),
                    x,
                    y,
                    z,
                    false,
                )
            } else {
                let th = 4 + (draw % 3) as int;
                let trunk = paint_pt(val, box_shape(wx, wx, base, base + th - 1, wz, wz, BlockId(6)), x, y, z, true);
                paint_pt(
                    trunk,
                    shape_spec(Shape::Canopy { wx: wx as i32, wz: wz as i32, top: (base + th) as i32, leaf: BlockId(7) }),
                    x,
                    y,
                    z,
                    false,
                )
            },
            Growth::Flora => paint_pt(
                val,
                cell_shape(wx, base, wz, flora_block(col.biome, (draw % 100) as int)),
                x,
                y,
                z,
                false,
            ),
            Growth::Nothing => val,
        }
    }
}

proof fn lemma_grow_pt(v: Seq<BlockId>, origin: BlockPos, seed: u64, col: ColumnPlan, wx: int, wz: int, i: int)
    requires
        0 <= i < v.len(),
    ensures
        grow_column(v, origin, seed, col, wx, wz).len() == v.len(),
        grow_column(v, origin, seed, col, wx, wz)[i] == grow_pt(
            v[i],
            seed,
            col,
            wx,
            wz,
            wpos(origin, i).0,
            wpos(origin, i).1,
            wpos(origin, i).2,
        ),
{
    let st = mix_step(mix_step(hash_coords_spec(seed ^ 0x5EED, wx as i32, wz as i32)));
    let draw = mix_out(st);
    let s = col.surface as int;
    if col.surface >= 62 {
        match col.growth {
            Growth::Tree => {
                if col.biome == Biome::SnowyPeaks {
                    let th = 6 + (draw % 3) as int;
                    let f = box_shape(wx, wx, s + 1, s + 1 + th - 1, wz, wz, BlockId(6));
                    lemma_painted_pt(v, origin, f, true, i);
                    let trunk = painted(v, origin, f, true);
                    let g = shape_spec(Shape::Crown { wx: wx as i32, wz: wz as i32, base: (s + 1 + th - 4) as i32, leaf: BlockId(7) });
                    lemma_painted_pt(trunk, origin, g, false, i);
                    assert(tree_spec(v, origin, wx, wz, s, col.biome, draw) == pine_spec(v, origin, wx, wz, s, draw));
                } else {
                    let th = 4 + (draw % 3) as int;
                    let f = box_shape(wx, wx, s + 1, s + 1 + th - 1, wz, wz, BlockId(6));
                    lemma_painted_pt(v, origin, f, true, i);
                    let trunk = painted(v, origin, f, true);
                    let g = shape_spec(Shape::Canopy { wx: wx as i32, wz: wz as i32, top: (s + 1 + th) as i32, leaf: BlockId(7) });
                    lemma_painted_pt(trunk, origin, g, false, i);
                    assert(tree_spec(v, origin, wx, wz, s, col.biome, draw) == blob_tree_spec(v, origin, wx, wz, s, BlockId(7), draw));
                }
            },
            Growth::Flora => {
                let f = cell_shape(wx, s + 1, wz, flora_block(col.biome, (draw % 100) as int));
                lemma_painted_pt(v, origin, f, false, i);
                assert(flora_spec(v, origin, wx, wz, s, col.biome, draw) == painted(v, origin, f, false));
            },
            Growth::Nothing => {},
        }
    }
}

/// Whether a world position is within `r` columns of `(wx, wz)` on both
/// horizontal axes.
pub open spec fn near(x: int, z: int, wx: int, wz: int, r: int) -> bool {
    -r <= x - wx <= r && -r <= z - wz <= r
}

/// A column's growth never reaches more than two columns away.
proof fn lemma_grow_far(val: BlockId, seed: u64, col: ColumnPlan, wx: int, wz: int, x: int, y: int, z: int)
    requires
        !near(x, z, wx, wz, 2),
        i32::MIN <= wx <= i32::MAX,
        i32::MIN <= wz <= i32::MAX,
    ensures
        grow_pt(val, seed, col, wx, wz, x, y, z) == val,
{
}

/// Column `n` (0..49) of the 7×7 block of columns centred on `(x, z)`, row
/// by row in z: its x.
pub open spec fn nb_x(x: int, n: int) -> int {
    x + n % 7 - 3
}

/// Column `n` of the 7×7 block centred on `(x, z)`: its z.
pub open spec fn nb_z(z: int, n: int) -> int {
    z + n / 7 - 3
}

/// What the first `m` columns of the 7×7 block around `(x, z)`, in world
/// row order, grow at `(x, y, z)` over `val`.
pub open spec fn grown(
    val: BlockId,
    seed: u64,
    cols: spec_fn(int, int) -> ColumnPlan,
    x: int,
    y: int,
    z: int,
    m: int,
) -> BlockId
    decreases m,
{
    if m <= 0 {
        val
    } else {
        let n = m - 1;
        grow_pt(
            grown(val, seed, cols, x, y, z, n),
            seed,
            cols(nb_x(x, n), nb_z(z, n)),
            nb_x(x, n),
            nb_z(z, n),
            x,
            y,
            z,
        )
    }
}

/// The window of a chunk at `origin` holds the columns of `cols`.
pub open spec fn window_from(origin: BlockPos, window: Seq<ColumnPlan>, cols: spec_fn(int, int) -> ColumnPlan) -> bool {
    &&& window.len() == 1444
    &&& forall|j: int| 0 <= j < 1444 ==> #[trigger] window[j] == cols(origin.x + j % 38 - 3, origin.z + j / 38 - 3)
}

/// The window slot of column `n` of the block around the chunk-local
/// column `(lx, lz)`.
pub open spec fn widx(lx: int, lz: int, n: int) -> int {
    (lz + n / 7) * 38 + (lx + n % 7)
}

proof fn lemma_widx_mono(lx: int, lz: int, n1: int, n2: int)
    requires
        0 <= lx < 32,
        0 <= lz < 32,
        0 <= n1 < n2 < 49,
    ensures
        widx(lx, lz, n1) < widx(lx, lz, n2),
{
    let (q1, r1, q2, r2) = (n1 / 7, n1 % 7, n2 / 7, n2 % 7);
    assert(n1 == q1 * 7 + r1 && n2 == q2 * 7 + r2 && 0 <= r1 < 7 && 0 <= r2 < 7);
    assert((lz + q1) * 38 + (lx + r1) < (lz + q2) * 38 + (lx + r2)) by (nonlinear_arith)
        requires
            n1 == q1 * 7 + r1,
            n2 == q2 * 7 + r2,
            0 <= r1 < 7,
            0 <= r2 < 7,
            n1 < n2,
    ;
}

/// The window slot `j` as a chunk-local column.
proof fn lemma_window_slot(j: int)
    requires
        0 <= j < 1444,
    ensures
        j == (j / 38) * 38 + j % 38,
        0 <= j % 38 < 38,
        0 <= j / 38 < 38,
{
}

/// A window slot within three columns of `(lx, lz)` is the slot of its
/// place in the 7×7 block.
proof fn lemma_slot_in_block(lx: int, lz: int, j: int)
    requires
        0 <= lx < 32,
        0 <= lz < 32,
        0 <= j < 1444,
        -3 <= j % 38 - 3 - lx <= 3,
        -3 <= j / 38 - 3 - lz <= 3,
    ensures
        ({
            let n = (j / 38 - lz) * 7 + (j % 38 - lx);
            &&& 0 <= n < 49
            &&& n % 7 == j % 38 - lx
            &&& n / 7 == j / 38 - lz
            &&& widx(lx, lz, n) == j
        }),
{
    lemma_window_slot(j);
    let a = j / 38 - lz;
    let b = j % 38 - lx;
    let n = a * 7 + b;
    assert(0 <= a < 7 && 0 <= b < 7);
    assert(n % 7 == b && n / 7 == a) by {
        vstd::arithmetic::div_mod::lemma_fundamental_div_mod_converse(n, 7, a, b);
    }
}

/// The slot of block column `n` holds that column.
proof fn lemma_block_in_slot(lx: int, lz: int, n: int)
    requires
        0 <= lx < 32,
        0 <= lz < 32,
        0 <= n < 49,
    ensures
        0 <= widx(lx, lz, n) < 1444,
        widx(lx, lz, n) % 38 == lx + n % 7,
        widx(lx, lz, n) / 38 == lz + n / 7,
{
    let j = widx(lx, lz, n);
    assert(0 <= n % 7 < 7 && 0 <= n / 7 < 7);
    vstd::arithmetic::div_mod::lemma_fundamental_div_mod_converse(j, 38, lz + n / 7, lx + n % 7);
}

/// Voxel `i` of a decorated chunk is the growth of the block columns around
/// it whose window slots come before `k`, over the terrain voxel.
proof fn lemma_decorated_pt(
    t: Seq<BlockId>,
    origin: BlockPos,
    seed: u64,
    window: Seq<ColumnPlan>,
    cols: spec_fn(int, int) -> ColumnPlan,
    i: int,
    k: int,
) -> (c: int)
    requires
        window_from(origin, window, cols),
        t.len() == 32768,
        0 <= i < 32768,
        0 <= k <= 1444,
        -2145000000 <= origin.x <= 2145000000,
        -2145000000 <= origin.z <= 2145000000,
    ensures
        0 <= c <= 49,
        forall|n: int| 0 <= n < c ==> widx(voxel_x(i), voxel_z(i), n) < k,
        forall|n: int| c <= n < 49 ==> widx(voxel_x(i), voxel_z(i), n) >= k,
        decorated(t, origin, seed, window, k).len() == 32768,
        decorated(t, origin, seed, window, k)[i] == grown(
            t[i],
            seed,
            cols,
            wpos(origin, i).0,
            wpos(origin, i).1,
            wpos(origin, i).2,
            c,
        ),
    decreases k,
{
    lemma_voxel_index(i);
    let lx = voxel_x(i);
    let lz = voxel_z(i);
    let (x, y, z) = wpos(origin, i);
    if k == 0 {
        assert forall|n: int| 0 <= n < 49 implies widx(lx, lz, n) >= 0 by {
            lemma_block_in_slot(lx, lz, n);
        }
        0
    } else {
        let j = k - 1;
        let c0 = lemma_decorated_pt(t, origin, seed, window, cols, i, j);
        let before = decorated(t, origin, seed, window, j);
        let wx = origin.x + j % 38 - 3;
        let wz = origin.z + j / 38 - 3;
        lemma_window_slot(j);
        lemma_grow_pt(before, origin, seed, window[j], wx, wz, i);
        assert(decorated(t, origin, seed, window, k) == grow_column(before, origin, seed, window[j], wx, wz));
        if c0 < 49 && widx(lx, lz, c0) == j {
            lemma_block_in_slot(lx, lz, c0);
            assert(wx == nb_x(x, c0) && wz == nb_z(z, c0));
            assert(window[j] == cols(wx, wz));
            assert forall|n: int| c0 + 1 <= n < 49 implies widx(lx, lz, n) >= k by {
                lemma_widx_mono(lx, lz, c0, n);
            }
            c0 + 1
        } else {
            if near(x, z, wx, wz, 3) {
                lemma_slot_in_block(lx, lz, j);
                let n = (j / 38 - lz) * 7 + (j % 38 - lx);
                assert(widx(lx, lz, n) == j);
                if n > c0 {
                    lemma_widx_mono(lx, lz, c0, n);
                }
                assert(false);
            }
            lemma_grow_far(before[i], seed, window[j], wx, wz, x, y, z);
            assert forall|n: int| c0 <= n < 49 implies widx(lx, lz, n) >= k by {
                if n > c0 {
                    lemma_widx_mono(lx, lz, c0, n);
                }
            }
            c0
        }
    }
}

/// What stamping a cottage on the floor `(bx, floor, bz)` leaves at
/// `(x, y, z)` that held `val`.
pub open spec fn cottage_pt(val: BlockId, bx: int, bz: int, floor: int, x: int, y: int, z: int) -> BlockId {
    let cleared = paint_pt(val, box_shape(bx - 1, bx + 5, floor + 1, floor + 10, bz - 1, bz + 5, BlockId(0)), x, y, z, true);
    let floored = paint_pt(cleared, box_shape(bx, bx + 4, floor, floor, bz, bz + 4, BlockId(16)), x, y, z, true);
    let walled = paint_pt(
        floored,
        shape_spec(Shape::Walls { bx: bx as i32, bz: bz as i32, floor: floor as i32 }),
        x,
        y,
        z,
        true,
    );
    let roofed = paint_pt(walled, box_shape(bx, bx + 4, floor + 4, floor + 4, bz, bz + 4, BlockId(21)), x, y, z, true);
    let peaked = paint_pt(roofed, box_shape(bx + 1, bx + 3, floor + 5, floor + 5, bz + 1, bz + 3, BlockId(21)), x, y, z, true);
    paint_pt(peaked, cell_shape(bx + 2, floor + 1, bz + 2, BlockId(12)), x, y, z, true)
}

proof fn lemma_cottage_pt(v: Seq<BlockId>, origin: BlockPos, bx: int, bz: int, floor: int, i: int)
    requires
        0 <= i < v.len(),
    ensures
        cottage_spec(v, origin, bx, bz, floor).len() == v.len(),
        cottage_spec(v, origin, bx, bz, floor)[i] == cottage_pt(
            v[i],
            bx,
            bz,
            floor,
            wpos(origin, i).0,
            wpos(origin, i).1,
            wpos(origin, i).2,
        ),
{
    let f1 = box_shape(bx - 1, bx + 5, floor + 1, floor + 10, bz - 1, bz + 5, BlockId(0));
    let a1 = painted(v, origin, f1, true);
    lemma_painted_pt(v, origin, f1, true, i);
    let f2 = box_shape(bx, bx + 4, floor, floor, bz, bz + 4, BlockId(16));
    let a2 = painted(a1, origin, f2, true);
    lemma_painted_pt(a1, origin, f2, true, i);
    let f3 = shape_spec(Shape::Walls { bx: bx as i32, bz: bz as i32, floor: floor as i32 });
    let a3 = painted(a2, origin, f3, true);
    lemma_painted_pt(a2, origin, f3, true, i);
    let f4 = box_shape(bx, bx + 4, floor + 4, floor + 4, bz, bz + 4, BlockId(21));
    let a4 = painted(a3, origin, f4, true);
    lemma_painted_pt(a3, origin, f4, true, i);
    let f5 = box_shape(bx + 1, bx + 3, floor + 5, floor + 5, bz + 1, bz + 3, BlockId(21));
    let a5 = painted(a4, origin, f5, true);
    lemma_painted_pt(a4, origin, f5, true, i);
    let f6 = cell_shape(bx + 2, floor + 1, bz + 2, BlockId(12));
    lemma_painted_pt(a5, origin, f6, true, i);
}

/// A cottage never reaches past its one-block yard.
proof fn lemma_cottage_far(val: BlockId, bx: int, bz: int, floor: int, x: int, y: int, z: int)
    requires
        x < bx - 1 || x > bx + 5 || z < bz - 1 || z > bz + 5,
        i32::MIN <= bx <= i32::MAX,
        i32::MIN <= bz <= i32::MAX,
    ensures
        cottage_pt(val, bx, bz, floor, x, y, z) == val,
{
}

/// The site plans of a chunk at `origin` are those of `sitef` for its
/// regions, row by row in z.
pub open spec fn sites_from(origin: BlockPos, sites: Seq<SitePlan>, sitef: spec_fn(int, int) -> SitePlan) -> bool {
    let r = regions(origin);
    &&& sites.len() == r.2 * r.3
    &&& forall|j: int| 0 <= j < sites.len() ==> #[trigger] sites[j] == sitef(r.0 + j % r.2, r.1 + j / r.2)
}

/// What the structure pass leaves at `(x, y, z)` over `val`: the cottage of
/// the structure region holding that column, if its site builds one.
pub open spec fn structure_pt(val: BlockId, seed: u64, sitef: spec_fn(int, int) -> SitePlan, x: int, y: int, z: int) -> BlockId {
    let rx = x / 80;
    let rz = z / 80;
    let p = sitef(rx, rz);
    let site = site_spec(seed, rx, rz);
    if builds(p) {
        cottage_pt(val, site.1, site.2, min4(p.h00 as int, p.h40 as int, p.h04 as int, p.h44 as int), x, y, z)
    } else {
        val
    }
}

/// A site's cottage stays inside its region's square, clear of its edges.
proof fn lemma_site_in_region(seed: u64, rx: int, rz: int)
    ensures
        rx * 80 + 8 <= site_spec(seed, rx, rz).1 <= rx * 80 + 71,
        rz * 80 + 8 <= site_spec(seed, rx, rz).2 <= rz * 80 + 71,
{
}

/// Voxel `i` after the structure pass over the first `k` regions: the
/// cottage of its own region if that region comes before `k`.
proof fn lemma_built_pt(
    v: Seq<BlockId>,
    origin: BlockPos,
    seed: u64,
    sites: Seq<SitePlan>,
    sitef: spec_fn(int, int) -> SitePlan,
    i: int,
    k: int,
)
    requires
        sites_from(origin, sites, sitef),
        v.len() == 32768,
        0 <= i < 32768,
        0 <= k <= sites.len(),
        -2145000000 <= origin.x <= 2145000000,
        -2145000000 <= origin.z <= 2145000000,
    ensures
        ({
            let r = regions(origin);
            let (x, y, z) = wpos(origin, i);
            let jp = (z / 80 - r.1) * r.2 + (x / 80 - r.0);
            &&& 0 <= jp < r.2 * r.3
            &&& built(v, origin, seed, sites, r.0, r.1, r.2, k).len() == 32768
            &&& built(v, origin, seed, sites, r.0, r.1, r.2, k)[i] == if jp < k {
                structure_pt(v[i], seed, sitef, x, y, z)
            } else {
                v[i]
            }
        }),
    decreases k,
{
    lemma_voxel_index(i);
    let r = regions(origin);
    let (rx0, rz0, nx, nz) = r;
    let (x, y, z) = wpos(origin, i);
    let (rxp, rzp) = (x / 80, z / 80);
    vstd::arithmetic::div_mod::lemma_div_is_ordered(origin.x - 8, x, 80);
    vstd::arithmetic::div_mod::lemma_div_is_ordered(x, origin.x + 31, 80);
    vstd::arithmetic::div_mod::lemma_div_is_ordered(origin.z - 8, z, 80);
    vstd::arithmetic::div_mod::lemma_div_is_ordered(z, origin.z + 31, 80);
    assert(0 <= rxp - rx0 < nx && 0 <= rzp - rz0 < nz);
    let jp = (rzp - rz0) * nx + (rxp - rx0);
    assert(0 <= jp < nx * nz) by (nonlinear_arith)
        requires
            jp == (rzp - rz0) * nx + (rxp - rx0),
            0 <= rxp - rx0 < nx,
            0 <= rzp - rz0 < nz,
    ;
    if k > 0 {
        let j = k - 1;
        lemma_built_pt(v, origin, seed, sites, sitef, i, j);
        let before = built(v, origin, seed, sites, rx0, rz0, nx, j);
        assert(nx > 0);
        let (rxj, rzj) = (rx0 + j % nx, rz0 + j / nx);
        let site = site_spec(seed, rxj, rzj);
        let floor = min4(sites[j].h00 as int, sites[j].h40 as int, sites[j].h04 as int, sites[j].h44 as int);
        assert(sites[j] == sitef(rxj, rzj));
        vstd::arithmetic::div_mod::lemma_fundamental_div_mod(j, nx);
        assert(0 <= j % nx < nx);
        assert(0 <= j / nx < nz) by (nonlinear_arith)
            requires
                j == nx * (j / nx) + j % nx,
                0 <= j % nx < nx,
                0 <= j < nx * nz,
                nx > 0,
        ;
        vstd::arithmetic::div_mod::lemma_div_is_ordered(-2145000008, origin.x - 8, 80);
        vstd::arithmetic::div_mod::lemma_div_is_ordered(origin.x + 31, 2145000031, 80);
        vstd::arithmetic::div_mod::lemma_div_is_ordered(-2145000008, origin.z - 8, 80);
        vstd::arithmetic::div_mod::lemma_div_is_ordered(origin.z + 31, 2145000031, 80);
        assert(-26812501 <= rxj <= 26812501 && -26812501 <= rzj <= 26812501);
        if builds(sites[j]) {
            lemma_cottage_pt(before, origin, site.1, site.2, floor, i);
        }
        if j == jp {
            vstd::arithmetic::div_mod::lemma_fundamental_div_mod_converse(j, nx, rzp - rz0, rxp - rx0);
            assert(rxj == rxp && rzj == rzp);
        } else {
            if rxj == rxp && rzj == rzp {
                assert(j == (j / nx) * nx + j % nx);
                assert(j == jp);
            }
            if builds(sites[j]) {
                lemma_site_in_region(seed, rxj, rzj);
                vstd::arithmetic::div_mod::lemma_fundamental_div_mod(x, 80);
                vstd::arithmetic::div_mod::lemma_fundamental_div_mod(z, 80);
                assert(x < site.1 - 1 || x > site.1 + 5 || z < site.2 - 1 || z > site.2 + 5) by (nonlinear_arith)
                    requires
                        rxj != rxp || rzj != rzp,
                        rxp * 80 <= x < rxp * 80 + 80,
                        rzp * 80 <= z < rzp * 80 + 80,
                        rxj * 80 + 8 <= site.1 <= rxj * 80 + 71,
                        rzj * 80 + 8 <= site.2 <= rzj * 80 + 71,
                ;
                lemma_cottage_far(before[i], site.1, site.2, floor, x, y, z);
            }
        }
    }
}

/// The site plans of a chunk as a function of the structure region.
spec fn plan_sites(origin: BlockPos, sites: Seq<SitePlan>) -> spec_fn(int, int) -> SitePlan {
    |rx: int, rz: int| sites[(rz - regions(origin).1) * regions(origin).2 + (rx - regions(origin).0)]
}

proof fn lemma_plan_sites(origin: BlockPos, sites: Seq<SitePlan>)
    requires
        sites.len() == regions(origin).2 * regions(origin).3,
    ensures
        regions(origin).2 > 0,
        regions(origin).3 > 0,
        sites_from(origin, sites, plan_sites(origin, sites)),
{
    let r = regions(origin);
    vstd::arithmetic::div_mod::lemma_div_is_ordered(origin.x - 8, origin.x + 31, 80);
    vstd::arithmetic::div_mod::lemma_div_is_ordered(origin.z - 8, origin.z + 31, 80);
    let sitef = plan_sites(origin, sites);
    assert forall|q: int| 0 <= q < sites.len() implies #[trigger] sites[q] == sitef(r.0 + q % r.2, r.1 + q / r.2) by {
        vstd::arithmetic::div_mod::lemma_fundamental_div_mod(q, r.2);
        assert((r.1 + q / r.2 - r.1) * r.2 + (r.0 + q % r.2 - r.0) == q) by (nonlinear_arith)
            requires
                q == r.2 * (q / r.2) + q % r.2,
        ;
    }
}

/// A cottage leaves air in its doorway: the two cells above the floor in
/// the middle of its front wall.
proof fn lemma_doorway_air(val: BlockId, bx: int, bz: int, floor: int, x: int, y: int, z: int)
    requires
        i32::MIN <= bx <= i32::MAX,
        i32::MIN <= bz <= i32::MAX,
        i32::MIN <= floor <= i32::MAX,
        x == bx + 2,
        z == bz,
        y == floor + 1 || y == floor + 2,
    ensures
        cottage_pt(val, bx, bz, floor, x, y, z) == BlockId(0),
{
}

/// The structure pass leaves air in the doorway of a cottage that its
/// region's site builds.
proof fn lemma_structure_doorway(
    val: BlockId,
    seed: u64,
    sitef: spec_fn(int, int) -> SitePlan,
    rx: int,
    rz: int,
    x: int,
    y: int,
    z: int,
)
    requires
        -26812501 <= rx <= 26812501,
        -26812501 <= rz <= 26812501,
        x / 80 == rx,
        z / 80 == rz,
        builds(sitef(rx, rz)),
        x == site_spec(seed, rx, rz).1 + 2,
        z == site_spec(seed, rx, rz).2,
        ({
            let p = sitef(rx, rz);
            let floor = min4(p.h00 as int, p.h40 as int, p.h04 as int, p.h44 as int);
            y == floor + 1 || y == floor + 2
        }),
    ensures
        structure_pt(val, seed, sitef, x, y, z) == BlockId(0),
{
    let site = site_spec(seed, rx, rz);
    lemma_site_in_region(seed, rx, rz);
    let p = sitef(rx, rz);
    let floor = min4(p.h00 as int, p.h40 as int, p.h04 as int, p.h44 as int);
    lemma_doorway_air(val, site.1, site.2, floor, x, y, z);
}

/// The structure region of chunk site `j` is the one holding every column
/// of its square.
#[verifier::spinoff_prover]
proof fn lemma_site_region(origin: BlockPos, sites: Seq<SitePlan>, j: int, x: int, z: int)
    requires
        -2145000000 <= origin.x <= 2145000000,
        -2145000000 <= origin.z <= 2145000000,
        sites.len() == regions(origin).2 * regions(origin).3,
        0 <= j < sites.len(),
        ({
            let r = regions(origin);
            let rx = r.0 + j % r.2;
            let rz = r.1 + j / r.2;
            rx * 80 <= x < rx * 80 + 80 && rz * 80 <= z < rz * 80 + 80
        }),
    ensures
        ({
            let r = regions(origin);
            let rx = r.0 + j % r.2;
            let rz = r.1 + j / r.2;
            &&& -26812501 <= rx <= 26812501
            &&& -26812501 <= rz <= 26812501
            &&& x / 80 == rx
            &&& z / 80 == rz
            &&& plan_sites(origin, sites)(rx, rz) == sites[j]
        }),
{
    let r = regions(origin);
    let (rx0, rz0, nx, nz) = r;
    lemma_plan_sites(origin, sites);
    let rxj = rx0 + j % nx;
    let rzj = rz0 + j / nx;
    vstd::arithmetic::div_mod::lemma_fundamental_div_mod(j, nx);
    assert(0 <= j / nx < nz) by (nonlinear_arith)
        requires
            j == nx * (j / nx) + j % nx,
            0 <= j % nx < nx,
            0 <= j < nx * nz,
            nx > 0,
    ;
    vstd::arithmetic::div_mod::lemma_div_is_ordered(-2145000008, origin.x - 8, 80);
    vstd::arithmetic::div_mod::lemma_div_is_ordered(origin.x + 31, 2145000031, 80);
    vstd::arithmetic::div_mod::lemma_div_is_ordered(-2145000008, origin.z - 8, 80);
    vstd::arithmetic::div_mod::lemma_div_is_ordered(origin.z + 31, 2145000031, 80);
    vstd::arithmetic::div_mod::lemma_fundamental_div_mod_converse(x, 80, rxj, x - rxj * 80);
    vstd::arithmetic::div_mod::lemma_fundamental_div_mod_converse(z, 80, rzj, z - rzj * 80);
    assert((rzj - rz0) * nx + (rxj - rx0) == j) by (nonlinear_arith)
        requires
            rzj - rz0 == j / nx,
            rxj - rx0 == j % nx,
            j == nx * (j / nx) + j % nx,
    ;
}

/// The columns of a chunk's window as a function of their world position.
spec fn window_cols(origin: BlockPos, window: Seq<ColumnPlan>) -> spec_fn(int, int) -> ColumnPlan {
    |wx: int, wz: int| window[(wz - origin.z + 3) * 38 + (wx - origin.x + 3)]
}

proof fn lemma_window_cols(origin: BlockPos, window: Seq<ColumnPlan>)
    requires
        window.len() == 1444,
    ensures
        window_from(origin, window, window_cols(origin, window)),
{
    assert forall|j: int| 0 <= j < 1444 implies #[trigger] window[j] == window_cols(origin, window)(
        origin.x + j % 38 - 3,
        origin.z + j / 38 - 3,
    ) by {
        vstd::arithmetic::div_mod::lemma_fundamental_div_mod(j, 38);
    }
}

/// Where the structure pass runs, voxel `i` of a generated chunk is what
/// the structure pass leaves over the decorated terrain there.
#[verifier::spinoff_prover]
proof fn lemma_generated_structure_pt(seed: u64, origin: BlockPos, plan: TerrainPlan, i: int)
    requires
        -2145000000 <= origin.x <= 2145000000,
        -2145000000 <= origin.z <= 2145000000,
        plan_ok(origin, plan),
        any_solid(origin, plan.window@),
        origin.y + 31 >= 62,
        0 <= i < 32768,
    ensures
        generated(seed, origin, plan)[i] == structure_pt(
            decorated(terrain_spec(origin, plan.window@, plan.flags@), origin, seed, plan.window@, 1444)[i],
            seed,
            plan_sites(origin, plan.sites@),
            wpos(origin, i).0,
            wpos(origin, i).1,
            wpos(origin, i).2,
        ),
{
    let r = regions(origin);
    let t = terrain_spec(origin, plan.window@, plan.flags@);
    let d = decorated(t, origin, seed, plan.window@, 1444);
    lemma_plan_sites(origin, plan.sites@);
    lemma_window_cols(origin, plan.window@);
    lemma_decorated_pt(t, origin, seed, plan.window@, window_cols(origin, plan.window@), i, 1444);
    lemma_built_pt(d, origin, seed, plan.sites@, plan_sites(origin, plan.sites@), i, r.2 * r.3);
}

/// Every cottage has a doorway: when the structure pass of a chunk runs
/// (some column reaches the chunk's bottom layer and the chunk reaches sea
/// level) and the site of its structure region `j` builds a cottage with
/// corner `(bx, bz)` on the floor `floor`, the two cells `(bx + 2, floor +
/// 1, bz)` and `(bx + 2, floor + 2, bz)` of the front wall are air in the
/// generated chunk, wherever they fall inside it.
#[verifier::spinoff_prover]
pub proof fn lemma_cottage_doorway(seed: u64, origin: BlockPos, plan: TerrainPlan, j: int, i: int)
    requires
        -2145000000 <= origin.x <= 2145000000,
        -2145000000 <= origin.z <= 2145000000,
        plan_ok(origin, plan),
        any_solid(origin, plan.window@),
        origin.y + 31 >= 62,
        0 <= j < plan.sites@.len(),
        builds(plan.sites@[j]),
        0 <= i < 32768,
        ({
            let r = regions(origin);
            let site = site_spec(seed, r.0 + j % r.2, r.1 + j / r.2);
            let p = plan.sites@[j];
            let floor = min4(p.h00 as int, p.h40 as int, p.h04 as int, p.h44 as int);
            ||| wpos(origin, i) == (site.1 + 2, floor + 1, site.2)
            ||| wpos(origin, i) == (site.1 + 2, floor + 2, site.2)
        }),
    ensures
        generated(seed, origin, plan)[i] == BlockId(0),
{
    let r = regions(origin);
    let sites = plan.sites@;
    let sitef = plan_sites(origin, sites);
    let rx = r.0 + j % r.2;
    let rz = r.1 + j / r.2;
    let (x, y, z) = wpos(origin, i);
    let d = decorated(terrain_spec(origin, plan.window@, plan.flags@), origin, seed, plan.window@, 1444);
    lemma_generated_structure_pt(seed, origin, plan, i);
    lemma_site_in_region(seed, rx, rz);
    lemma_site_region(origin, sites, j, x, z);
    lemma_structure_doorway(d[i], seed, sitef, rx, rz, x, y, z);
}

/// What a cottage with floor corner `(bx, floor, bz)` puts at offset
/// `(dx, dy, dz)` from that corner, or `None` where it leaves the world as
/// it was: a 5×5 cobble floor; plank walls three high around it, with glass
/// windows at mid-height in the middle of the back and side walls and a
/// two-high doorway in the middle of the front wall (`dz == 0`); a 5×5 roof
/// of tiles with a 3×3 peak above; a lantern in the middle of the floor;
/// and air everywhere else in the building and its one-block yard, up to
/// ten above the floor.
pub open spec fn cottage_cell(dx: int, dy: int, dz: int) -> Option<BlockId> {
    let inside = 0 <= dx < 5 && 0 <= dz < 5;
    let wall = dx == 0 || dx == 4 || dz == 0 || dz == 4;
    if inside && dy == 0 {
        Some(BlockId(16))
    } else if inside && dy == 4 {
        Some(BlockId(21))
    } else if 1 <= dx <= 3 && 1 <= dz <= 3 && dy == 5 {
        Some(BlockId(21))
    } else if dx == 2 && dy == 1 && dz == 2 {
        Some(BlockId(12))
    } else if inside && wall && 1 <= dy <= 3 && !(dz == 0 && dx == 2 && dy <= 2) {
        if dy == 2 && ((dx == 2 && dz == 4) || (dz == 2 && (dx == 0 || dx == 4))) {
            Some(BlockId(15))
        } else {
            Some(BlockId(11))
        }
    } else if -1 <= dx <= 5 && -1 <= dz <= 5 && 1 <= dy <= 10 {
        Some(BlockId(0))
    } else {
        None
    }
}

/// Stamping a cottage puts [`cottage_cell`] at every position it touches.
proof fn lemma_cottage_cell(val: BlockId, bx: int, bz: int, floor: int, x: int, y: int, z: int)
    requires
        i32::MIN <= bx <= i32::MAX,
        i32::MIN <= bz <= i32::MAX,
        i32::MIN <= floor <= i32::MAX,
        cottage_cell(x - bx, y - floor, z - bz) is Some,
    ensures
        cottage_pt(val, bx, bz, floor, x, y, z) == cottage_cell(x - bx, y - floor, z - bz)->0,
{
}

/// The structure pass puts [`cottage_cell`] at every position of the
/// cottage that its region's site builds.
proof fn lemma_structure_cell(
    val: BlockId,
    seed: u64,
    sitef: spec_fn(int, int) -> SitePlan,
    rx: int,
    rz: int,
    x: int,
    y: int,
    z: int,
)
    requires
        -26812501 <= rx <= 26812501,
        -26812501 <= rz <= 26812501,
        x / 80 == rx,
        z / 80 == rz,
        builds(sitef(rx, rz)),
        ({
            let site = site_spec(seed, rx, rz);
            let p = sitef(rx, rz);
            let floor = min4(p.h00 as int, p.h40 as int, p.h04 as int, p.h44 as int);
            cottage_cell(x - site.1, y - floor, z - site.2) is Some
        }),
    ensures
        ({
            let site = site_spec(seed, rx, rz);
            let p = sitef(rx, rz);
            let floor = min4(p.h00 as int, p.h40 as int, p.h04 as int, p.h44 as int);
            structure_pt(val, seed, sitef, x, y, z) == cottage_cell(x - site.1, y - floor, z - site.2)->0
        }),
{
    let site = site_spec(seed, rx, rz);
    lemma_site_in_region(seed, rx, rz);
    let p = sitef(rx, rz);
    let floor = min4(p.h00 as int, p.h40 as int, p.h04 as int, p.h44 as int);
    lemma_cottage_cell(val, site.1, site.2, floor, x, y, z);
}

/// Cottages are built as [`cottage_cell`] describes: when the structure
/// pass of a chunk runs and the site of its structure region `j` builds a
/// cottage with floor corner `(bx, floor, bz)`, every voxel of the
/// generated chunk at an offset where the cottage places a block holds that
/// block.
#[verifier::spinoff_prover]
pub proof fn lemma_cottage_layout(seed: u64, origin: BlockPos, plan: TerrainPlan, j: int, i: int)
    requires
        -2145000000 <= origin.x <= 2145000000,
        -2145000000 <= origin.z <= 2145000000,
        plan_ok(origin, plan),
        any_solid(origin, plan.window@),
        origin.y + 31 >= 62,
        0 <= j < plan.sites@.len(),
        builds(plan.sites@[j]),
        0 <= i < 32768,
        ({
            let r = regions(origin);
            let site = site_spec(seed, r.0 + j % r.2, r.1 + j / r.2);
            let p = plan.sites@[j];
            let floor = min4(p.h00 as int, p.h40 as int, p.h04 as int, p.h44 as int);
            cottage_cell(wpos(origin, i).0 - site.1, wpos(origin, i).1 - floor, wpos(origin, i).2 - site.2)
                is Some
        }),
    ensures
        ({
            let r = regions(origin);
            let site = site_spec(seed, r.0 + j % r.2, r.1 + j / r.2);
            let p = plan.sites@[j];
            let floor = min4(p.h00 as int, p.h40 as int, p.h04 as int, p.h44 as int);
            generated(seed, origin, plan)[i] == cottage_cell(
                wpos(origin, i).0 - site.1,
                wpos(origin, i).1 - floor,
                wpos(origin, i).2 - site.2,
            )->0
        }),
{
    let r = regions(origin);
    let sites = plan.sites@;
    let sitef = plan_sites(origin, sites);
    let rx = r.0 + j % r.2;
    let rz = r.1 + j / r.2;
    let (x, y, z) = wpos(origin, i);
    let d = decorated(terrain_spec(origin, plan.window@, plan.flags@), origin, seed, plan.window@, 1444);
    lemma_generated_structure_pt(seed, origin, plan, i);
    lemma_site_in_region(seed, rx, rz);
    lemma_site_region(origin, sites, j, x, z);
    lemma_structure_cell(d[i], seed, sitef, rx, rz, x, y, z);
}

/// The cave and ore flags of a chunk at `origin` are those of `flagf`.
pub open spec fn flags_from(origin: BlockPos, flags: Seq<u8>, flagf: spec_fn(int, int, int) -> u8) -> bool {
    &&& flags.len() == 32768
    &&& forall|i: int|
        0 <= i < 32768 ==> #[trigger] flags[i] == flagf(wpos(origin, i).0, wpos(origin, i).1, wpos(origin, i).2)
}

/// The block of the world at `(x, y, z)`, given the column plans, the cave
/// and ore flags and the structure sites of the whole world: the terrain
/// block of its column, grown over by the 7×7 columns around it in world
/// row order, then the cottage of its structure region.
pub open spec fn world_block(
    seed: u64,
    cols: spec_fn(int, int) -> ColumnPlan,
    flagf: spec_fn(int, int, int) -> u8,
    sitef: spec_fn(int, int) -> SitePlan,
    x: int,
    y: int,
    z: int,
) -> BlockId {
    let c = cols(x, z);
    let t = terrain_block_spec(y, c.surface as int, c.biome, flagf(x, y, z));
    structure_pt(grown(t, seed, cols, x, y, z, 49), seed, sitef, x, y, z)
}

/// Chunk borders are seamless: when a chunk's plan is sampled from
/// world-wide column plans, flags and sites, and its decoration and
/// structure passes run (some column of the chunk reaches its bottom layer
/// and the chunk reaches sea level), every voxel of the generated chunk is
/// the world block at its position. So a tree or cottage straddling a
/// border is the same on both sides, whatever order chunks are generated in.
pub proof fn lemma_generated_is_world_block(
    seed: u64,
    origin: BlockPos,
    plan: TerrainPlan,
    cols: spec_fn(int, int) -> ColumnPlan,
    flagf: spec_fn(int, int, int) -> u8,
    sitef: spec_fn(int, int) -> SitePlan,
    i: int,
)
    requires
        window_from(origin, plan.window@, cols),
        flags_from(origin, plan.flags@, flagf),
        sites_from(origin, plan.sites@, sitef),
        any_solid(origin, plan.window@),
        origin.y + 31 >= 62,
        -2145000000 <= origin.x <= 2145000000,
        -2145000000 <= origin.z <= 2145000000,
        0 <= i < 32768,
    ensures
        generated(seed, origin, plan)[i] == world_block(
            seed,
            cols,
            flagf,
            sitef,
            wpos(origin, i).0,
            wpos(origin, i).1,
            wpos(origin, i).2,
        ),
{
    lemma_voxel_index(i);
    let (x, y, z) = wpos(origin, i);
    let window = plan.window@;
    let t = terrain_spec(origin, window, plan.flags@);
    lemma_block_in_slot(voxel_x(i), voxel_z(i), 24);
    assert(widx(voxel_x(i), voxel_z(i), 24) == (voxel_z(i) + 3) * 38 + (voxel_x(i) + 3));
    assert(column_at(window, voxel_x(i), voxel_z(i)) == cols(x, z));
    assert(t[i] == terrain_block_spec(y, cols(x, z).surface as int, cols(x, z).biome, flagf(x, y, z)));
    let c = lemma_decorated_pt(t, origin, seed, window, cols, i, 1444);
    if c < 49 {
        lemma_block_in_slot(voxel_x(i), voxel_z(i), c);
    }
    let d = decorated(t, origin, seed, window, 1444);
    let r = regions(origin);
    lemma_built_pt(d, origin, seed, plan.sites@, sitef, i, r.2 * r.3);
}

} // verus!
