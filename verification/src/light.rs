//! Baked voxel lighting: sky light and block (emitter) light, flood-filled
//! over the chunk plus a margin so light bleeds correctly across borders.
//!
//! Sky light enters from open cells at the top of the region and falls
//! straight down without attenuation (sunbeams), decrementing when it spreads
//! sideways or up. Block light radiates from emitters, decrementing one level
//! per step. Both are blocked by opaque blocks.

use crate::block::{resolve, Block, BlockId, BlockRegistry, RenderKind};
use crate::coords::BlockPos;
use crate::mesh::{light_in_range, ChunkLight};
use crate::world::{block_in, World};
use std::collections::VecDeque;
use vstd::prelude::*;

verus! {

/// Blocks of padding around the chunk.
pub const MARGIN: i32 = 6;

/// Edge length of the padded region.
pub const REGION: i32 = 44;

/// Number of cells in the padded region.
pub const REGION_CELLS: usize = 85184;

/// A source of blocks by world position.
pub trait BlockSource {
    /// Whether the source is ready to answer queries.
    spec fn source_wf(&self) -> bool;

    /// The block the source reports at a world position.
    spec fn block_spec(&self, p: BlockPos) -> BlockId;

    fn block_at(&self, p: BlockPos) -> (r: BlockId)
        requires
            self.source_wf(),
        ensures
            r == self.block_spec(p),
    ;
}

impl BlockSource for World {
    open spec fn source_wf(&self) -> bool {
        self.wf()
    }

    open spec fn block_spec(&self, p: BlockPos) -> BlockId {
        block_in(self@, p)
    }

    fn block_at(&self, p: BlockPos) -> (r: BlockId) {
        World::block_at(self, p)
    }
}

/// Whether region coordinates lie in the padded region.
pub open spec fn in_region(x: int, y: int, z: int) -> bool {
    0 <= x < 44 && 0 <= y < 44 && 0 <= z < 44
}

/// Slot of region cell `(x, y, z)`.
pub open spec fn ridx(x: int, y: int, z: int) -> int {
    x + y * 44 + z * 1936
}

/// Offset of neighbour direction `k`: `+x, -x, +y, -y, +z, -z`.
pub open spec fn dir_offset(k: int) -> (int, int, int) {
    if k == 0 {
        (1, 0, 0)
    } else if k == 1 {
        (-1, 0, 0)
    } else if k == 2 {
        (0, 1, 0)
    } else if k == 3 {
        (0, -1, 0)
    } else if k == 4 {
        (0, 0, 1)
    } else {
        (0, 0, -1)
    }
}

/// The level light `l` carries one step in direction `k`: sky light at full
/// strength falling straight down keeps it, everything else loses one.
pub open spec fn step_level(l: int, sky: bool, k: int) -> int {
    if sky && k == 3 && l == 15 {
        15
    } else {
        l - 1
    }
}

/// Light at `(x, y, z)` reaches its neighbour in direction `k` at least at
/// the stepped level, unless that neighbour is outside the region or solid.
pub open spec fn reaches(L: Seq<u8>, solid: Seq<bool>, sky: bool, x: int, y: int, z: int, k: int) -> bool {
    let o = dir_offset(k);
    in_region(x + o.0, y + o.1, z + o.2) && !solid[ridx(x + o.0, y + o.1, z + o.2)] ==> L[ridx(
        x + o.0,
        y + o.1,
        z + o.2,
    )] >= step_level(L[ridx(x, y, z)] as int, sky, k)
}

/// Every neighbour of `(x, y, z)` is at least as lit as the cell passes on.
pub open spec fn settled(L: Seq<u8>, solid: Seq<bool>, sky: bool, x: int, y: int, z: int) -> bool {
    forall|k: int| 0 <= k < 6 ==> #[trigger] reaches(L, solid, sky, x, y, z, k)
}

/// Cell `(a, b, c)` passes enough light in direction `k` to account for the
/// level of the cell it reaches.
pub open spec fn feeds(L: Seq<u8>, sky: bool, a: int, b: int, c: int, k: int) -> bool {
    let o = dir_offset(k);
    in_region(a, b, c) && L[ridx(a + o.0, b + o.1, c + o.2)] <= step_level(
        L[ridx(a, b, c)] as int,
        sky,
        k,
    )
}

/// A cell's level is its seed, or it is an open cell lit by a neighbour.
pub open spec fn justified(
    seed: Seq<u8>,
    solid: Seq<bool>,
    L: Seq<u8>,
    sky: bool,
    x: int,
    y: int,
    z: int,
) -> bool {
    L[ridx(x, y, z)] == seed[ridx(x, y, z)] || (!solid[ridx(x, y, z)] && exists|k: int|
        0 <= k < 6 && #[trigger] feeds(
            L,
            sky,
            x - dir_offset(k).0,
            y - dir_offset(k).1,
            z - dir_offset(k).2,
            k,
        ))
}

/// `L` is the flood fill of the seed levels through the open cells: at least
/// the seeds, at most 15, no open neighbour left darker than a cell passes
/// on, and every raised cell lit by a neighbour.
pub open spec fn is_flood(seed: Seq<u8>, solid: Seq<bool>, sky: bool, L: Seq<u8>) -> bool {
    &&& L.len() == REGION_CELLS
    &&& forall|c: int| 0 <= c < REGION_CELLS ==> seed[c] <= #[trigger] L[c] <= 15
    &&& forall|x: int, y: int, z: int| in_region(x, y, z) ==> #[trigger] settled(L, solid, sky, x, y, z)
    &&& forall|x: int, y: int, z: int|
        in_region(x, y, z) ==> #[trigger] justified(seed, solid, L, sky, x, y, z)
}

proof fn lemma_ridx_injective(a: int, b: int, c: int, x: int, y: int, z: int)
    requires
        in_region(a, b, c),
        in_region(x, y, z),
        ridx(a, b, c) == ridx(x, y, z),
    ensures
        a == x && b == y && c == z,
{
    assert(c == z) by (nonlinear_arith)
        requires
            0 <= a < 44, 0 <= b < 44, 0 <= x < 44, 0 <= y < 44,
            a + b * 44 + c * 1936 == x + y * 44 + z * 1936,
    ;
    assert(b == y);
}

proof fn lemma_ridx_bounds(x: int, y: int, z: int)
    requires
        in_region(x, y, z),
    ensures
        0 <= ridx(x, y, z) < REGION_CELLS,
{
}

/// Every cell of one flood is at most as lit as in any other flood of the
/// same seeds: a raised level traces back, cell by cell, to a seed, and the
/// other flood passes the same light along that path.
proof fn lemma_flood_le(seed: Seq<u8>, solid: Seq<bool>, sky: bool, a: Seq<u8>, b: Seq<u8>, x: int, y: int, z: int)
    requires
        is_flood(seed, solid, sky, a),
        is_flood(seed, solid, sky, b),
        in_region(x, y, z),
    ensures
        a[ridx(x, y, z)] <= b[ridx(x, y, z)],
    decreases (15 - a[ridx(x, y, z)]) * 45 + (44 - y),
{
    lemma_ridx_bounds(x, y, z);
    let m = ridx(x, y, z);
    assert(justified(seed, solid, a, sky, x, y, z));
    assert(seed[m] <= b[m]);
    if a[m] != seed[m] {
        let k = choose|k: int|
            0 <= k < 6 && #[trigger] feeds(a, sky, x - dir_offset(k).0, y - dir_offset(k).1, z - dir_offset(k).2, k);
        let o = dir_offset(k);
        let (nx, ny, nz) = (x - o.0, y - o.1, z - o.2);
        assert(in_region(nx, ny, nz));
        lemma_ridx_bounds(nx, ny, nz);
        let n = ridx(nx, ny, nz);
        assert(nx + o.0 == x && ny + o.1 == y && nz + o.2 == z);
        assert(a[m] <= step_level(a[n] as int, sky, k));
        assert(a[n] <= 15 && a[m] <= 15);
        assert((15 - a[n]) * 45 + (44 - ny) < (15 - a[m]) * 45 + (44 - y)) by (nonlinear_arith)
            requires
                a[m] <= step_level(a[n] as int, sky, k),
                step_level(a[n] as int, sky, k) == a[n] - 1 || (k == 3 && ny == y + 1 && a[n] == 15),
                a[n] <= 15,
                a[m] <= 15,
                0 <= y < 44,
                0 <= ny < 44,
        ;
        lemma_flood_le(seed, solid, sky, a, b, nx, ny, nz);
        assert(settled(b, solid, sky, nx, ny, nz));
        assert(reaches(b, solid, sky, nx, ny, nz, k));
        assert(b[m] >= step_level(b[n] as int, sky, k));
    }
}

/// A flood fill is determined by its seeds and the solid cells: any two
/// floods of the same seeds through the same cells are equal.
pub proof fn lemma_flood_unique(seed: Seq<u8>, solid: Seq<bool>, sky: bool, a: Seq<u8>, b: Seq<u8>)
    requires
        is_flood(seed, solid, sky, a),
        is_flood(seed, solid, sky, b),
    ensures
        a == b,
{
    assert forall|c: int| 0 <= c < a.len() implies a[c] == b[c] by {
        let x = c % 44;
        let y = (c / 44) % 44;
        let z = c / 1936;
        assert(c == x + y * 44 + z * 1936 && in_region(x, y, z)) by (nonlinear_arith)
            requires
                0 <= c < 85184,
                x == c % 44,
                y == (c / 44) % 44,
                z == c / 1936,
        {
            vstd::arithmetic::div_mod::lemma_fundamental_div_mod(c, 44);
            vstd::arithmetic::div_mod::lemma_fundamental_div_mod(c / 44, 44);
            vstd::arithmetic::div_mod::lemma_div_denominator(c, 44, 44);
        }
        lemma_flood_le(seed, solid, sky, a, b, x, y, z);
        lemma_flood_le(seed, solid, sky, b, a, x, y, z);
    }
    assert(a =~= b);
}

fn region_coords(i: usize) -> (r: (i32, i32, i32))
    requires
        i < REGION_CELLS,
    ensures
        in_region(r.0 as int, r.1 as int, r.2 as int),
        ridx(r.0 as int, r.1 as int, r.2 as int) == i,
{
    let x = (i % 44) as i32;
    let y = ((i / 44) % 44) as i32;
    let z = (i / 1936) as i32;
    proof {
        let ii = i as int;
        assert(ii == (ii % 44) + ((ii / 44) % 44) * 44 + (ii / 1936) * 1936) by (nonlinear_arith)
            requires
                0 <= ii,
        {
            vstd::arithmetic::div_mod::lemma_fundamental_div_mod(ii, 44);
            vstd::arithmetic::div_mod::lemma_fundamental_div_mod(ii / 44, 44);
            vstd::arithmetic::div_mod::lemma_div_denominator(ii, 44, 44);
        }
    }
    (x, y, z)
}

fn dir(k: usize) -> (r: (i32, i32, i32))
    requires
        k < 6,
    ensures
        (r.0 as int, r.1 as int, r.2 as int) == dir_offset(k as int),
{
    if k == 0 {
        (1, 0, 0)
    } else if k == 1 {
        (-1, 0, 0)
    } else if k == 2 {
        (0, 1, 0)
    } else if k == 3 {
        (0, -1, 0)
    } else if k == 4 {
        (0, 0, 1)
    } else {
        (0, 0, -1)
    }
}

/// The total headroom below full brightness over all cells.
pub open spec fn deficit(s: Seq<u8>) -> nat
    decreases s.len(),
{
    if s.len() == 0 {
        0
    } else {
        deficit(s.drop_last()) + (if s.last() <= 15 {
            (15 - s.last()) as nat
        } else {
            0nat
        })
    }
}

proof fn lemma_deficit_raise(s: Seq<u8>, i: int, v: u8)
    requires
        0 <= i < s.len(),
        s[i] < v <= 15,
    ensures
        deficit(s.update(i, v)) < deficit(s),
    decreases s.len(),
{
    let t = s.update(i, v);
    if i == s.len() - 1 {
        assert(t.drop_last() =~= s.drop_last());
    } else {
        lemma_deficit_raise(s.drop_last(), i, v);
        assert(t.drop_last() =~= s.drop_last().update(i, v));
    }
}

proof fn lemma_step_monotone(l1: int, l2: int, sky: bool, k: int)
    requires
        l1 <= l2 <= 15,
    ensures
        step_level(l1, sky, k) <= step_level(l2, sky, k),
{
}

/// Raising levels keeps every cell justified, given the raised cells are.
proof fn lemma_raise_keeps_justified(
    seed: Seq<u8>,
    solid: Seq<bool>,
    sky: bool,
    l1: Seq<u8>,
    l2: Seq<u8>,
)
    requires
        l1.len() == REGION_CELLS,
        l2.len() == REGION_CELLS,
        forall|c: int| 0 <= c < REGION_CELLS ==> l1[c] <= #[trigger] l2[c] <= 15,
        forall|x: int, y: int, z: int| in_region(x, y, z) ==> #[trigger] justified(seed, solid, l1, sky, x, y, z),
        forall|x: int, y: int, z: int|
            in_region(x, y, z) && l2[ridx(x, y, z)] != l1[ridx(x, y, z)] ==> #[trigger] justified(
                seed,
                solid,
                l2,
                sky,
                x,
                y,
                z,
            ),
    ensures
        forall|x: int, y: int, z: int| in_region(x, y, z) ==> #[trigger] justified(seed, solid, l2, sky, x, y, z),
{
    assert forall|x: int, y: int, z: int| in_region(x, y, z) implies #[trigger] justified(
        seed,
        solid,
        l2,
        sky,
        x,
        y,
        z,
    ) by {
        if l2[ridx(x, y, z)] == l1[ridx(x, y, z)] {
            assert(justified(seed, solid, l1, sky, x, y, z));
            if l1[ridx(x, y, z)] != seed[ridx(x, y, z)] {
                let k = choose|k: int|
                    0 <= k < 6 && #[trigger] feeds(
                        l1,
                        sky,
                        x - dir_offset(k).0,
                        y - dir_offset(k).1,
                        z - dir_offset(k).2,
                        k,
                    );
                let a = x - dir_offset(k).0;
                let b = y - dir_offset(k).1;
                let c = z - dir_offset(k).2;
                lemma_ridx_bounds(a, b, c);
                lemma_step_monotone(l1[ridx(a, b, c)] as int, l2[ridx(a, b, c)] as int, sky, k);
                assert(feeds(l2, sky, a, b, c, k));
            }
        }
    }
}

/// Pass light from cell `(x, y, z)` (slot `i`, level `l`) to its neighbour in
/// direction `k`, queueing the neighbour when it brightens.
fn relax(
    level: &mut Vec<u8>,
    solid: &Vec<bool>,
    queue: &mut VecDeque<usize>,
    sky: bool,
    x: i32,
    y: i32,
    z: i32,
    l: u8,
    k: usize,
    Ghost(seed): Ghost<Seq<u8>>,
)
    requires
        old(level)@.len() == REGION_CELLS,
        solid@.len() == REGION_CELLS,
        seed.len() == REGION_CELLS,
        in_region(x as int, y as int, z as int),
        old(level)@[ridx(x as int, y as int, z as int)] == l,
        1 < l <= 15,
        k < 6,
        forall|c: int| 0 <= c < REGION_CELLS ==> seed[c] <= #[trigger] old(level)@[c] <= 15,
        forall|a: int, b: int, c: int|
            in_region(a, b, c) ==> #[trigger] justified(seed, solid@, old(level)@, sky, a, b, c),
    ensures
        final(level)@.len() == REGION_CELLS,
        forall|c: int| 0 <= c < REGION_CELLS ==> old(level)@[c] <= #[trigger] final(level)@[c] <= 15,
        forall|c: int|
            0 <= c < REGION_CELLS && final(level)@[c] != old(level)@[c]
                ==> #[trigger] final(queue)@.contains(c as usize),
        forall|c: int|
            0 <= c < REGION_CELLS && final(level)@[c] != old(level)@[c] ==> c < REGION_CELLS,
        final(queue)@ == old(queue)@ || (exists|c: usize|
            c < REGION_CELLS && final(queue)@ == old(queue)@.push(c)),
        deficit(final(level)@) <= deficit(old(level)@),
        deficit(final(level)@) == deficit(old(level)@) ==> final(queue)@ == old(queue)@,
        final(level)@[ridx(x as int, y as int, z as int)] == l,
        forall|c: int|
            0 <= c < REGION_CELLS && final(level)@[c] != old(level)@[c] ==> #[trigger] final(level)@[c] <= l,
        reaches(final(level)@, solid@, sky, x as int, y as int, z as int, k as int),
        forall|a: int, b: int, c: int|
            in_region(a, b, c) ==> #[trigger] justified(seed, solid@, final(level)@, sky, a, b, c),
{
    let ghost l0 = level@;
    let (dx, dy, dz) = dir(k);
    let (nx, ny, nz) = (x + dx, y + dy, z + dz);
    if nx >= 0 && ny >= 0 && nz >= 0 && nx < REGION && ny < REGION && nz < REGION {
        let ni = (nx + ny * REGION + nz * REGION * REGION) as usize;
        proof {
            lemma_ridx_bounds(nx as int, ny as int, nz as int);
            lemma_ridx_bounds(x as int, y as int, z as int);
            if ni as int == ridx(x as int, y as int, z as int) {
                lemma_ridx_injective(nx as int, ny as int, nz as int, x as int, y as int, z as int);
            }
        }
        if !solid[ni] {
            let nl: u8 = if sky && dy == -1 && l == 15 {
                15
            } else {
                l - 1
            };
            if nl > level[ni] {
                level.set(ni, nl);
                queue.push_back(ni);
                proof {
                    lemma_deficit_raise(l0, ni as int, nl);
                    assert(queue@.last() == ni);
                    assert forall|c: int|
                        0 <= c < REGION_CELLS && level@[c] != l0[c] implies #[trigger] queue@.contains(
                        c as usize,
                    ) by {
                        assert(c == ni);
                        assert(queue@[queue@.len() - 1] == ni);
                    }
                    assert forall|a: int, b: int, c: int|
                        in_region(a, b, c) && level@[ridx(a, b, c)] != l0[ridx(a, b, c)] implies #[trigger] justified(
                        seed,
                        solid@,
                        level@,
                        sky,
                        a,
                        b,
                        c,
                    ) by {
                        lemma_ridx_bounds(a, b, c);
                        lemma_ridx_injective(a, b, c, nx as int, ny as int, nz as int);
                        assert(x == a - dir_offset(k as int).0);
                        assert(y == b - dir_offset(k as int).1);
                        assert(z == c - dir_offset(k as int).2);
                        assert(feeds(level@, sky, x as int, y as int, z as int, k as int));
                    }
                    lemma_raise_keeps_justified(seed, solid@, sky, l0, level@);
                    assert forall|c: int|
                        0 <= c < REGION_CELLS && level@[c] != l0[c] implies #[trigger] level@[c] <= l by {
                        assert(c == ni);
                    }
                }
            }
        }
    }
}

proof fn lemma_prefix_contains(p: Seq<usize>, s: Seq<usize>, v: usize)
    requires
        p.is_prefix_of(s),
        p.contains(v),
    ensures
        s.contains(v),
{
    let w = choose|w: int| 0 <= w < p.len() && p[w] == v;
    assert(s[w] == v);
}

/// Flood-fill light levels from the queued cells. For sky light, propagation
/// straight down keeps a full level; every other step loses one level.
fn propagate(level: &mut Vec<u8>, solid: &Vec<bool>, queue: &mut VecDeque<usize>, sky: bool)
    requires
        old(level)@.len() == REGION_CELLS,
        solid@.len() == REGION_CELLS,
        forall|c: int| 0 <= c < REGION_CELLS ==> #[trigger] old(level)@[c] <= 15,
        forall|q: int| 0 <= q < old(queue)@.len() ==> #[trigger] old(queue)@[q] < REGION_CELLS,
        forall|x: int, y: int, z: int|
            in_region(x, y, z) && !old(queue)@.contains(ridx(x, y, z) as usize) ==> #[trigger] settled(
                old(level)@,
                solid@,
                sky,
                x,
                y,
                z,
            ),
    ensures
        is_flood(old(level)@, solid@, sky, final(level)@),
        final(queue)@.len() == 0,
        forall|c: int| 0 <= c < REGION_CELLS ==> old(level)@[c] <= #[trigger] final(level)@[c],
        forall|c: int| 0 <= c < REGION_CELLS && solid@[c] ==> #[trigger] final(level)@[c] == old(level)@[c],
        forall|m: int|
            #![trigger levels_at_most(old(level)@, m)]
            #![trigger levels_at_most(final(level)@, m)]
            levels_at_most(old(level)@, m) <==> levels_at_most(final(level)@, m),
{
    let ghost seed = level@;
    let ghost mx = max_level(seed);
    proof {
        lemma_max_level(seed);
    }
    while queue.len() > 0
        invariant
            forall|c: int| 0 <= c < REGION_CELLS ==> #[trigger] level@[c] <= mx,
            level@.len() == REGION_CELLS,
            solid@.len() == REGION_CELLS,
            seed.len() == REGION_CELLS,
            forall|c: int| 0 <= c < REGION_CELLS ==> seed[c] <= #[trigger] level@[c] <= 15,
            forall|q: int| 0 <= q < queue@.len() ==> #[trigger] queue@[q] < REGION_CELLS,
            forall|x: int, y: int, z: int|
                in_region(x, y, z) && !queue@.contains(ridx(x, y, z) as usize) ==> #[trigger] settled(
                    level@,
                    solid@,
                    sky,
                    x,
                    y,
                    z,
                ),
            forall|x: int, y: int, z: int|
                in_region(x, y, z) ==> #[trigger] justified(seed, solid@, level@, sky, x, y, z),
        decreases deficit(level@), queue@.len(),
    {
        let ghost q0 = queue@;
        let i = queue.pop_front().unwrap();
        let ghost at_pop = level@;
        let ghost q1 = queue@;
        let l = level[i];
        let (x, y, z) = region_coords(i);
        if l > 1 {
            let mut k: usize = 0;
            while k < 6
                invariant
                    level@.len() == REGION_CELLS,
                    solid@.len() == REGION_CELLS,
                    seed.len() == REGION_CELLS,
                    at_pop.len() == REGION_CELLS,
                    in_region(x as int, y as int, z as int),
                    ridx(x as int, y as int, z as int) == i,
                    1 < l <= 15,
                    l <= mx,
                    forall|c: int| 0 <= c < REGION_CELLS ==> #[trigger] level@[c] <= mx,
                    k <= 6,
                    level@[i as int] == l,
                    forall|c: int| 0 <= c < REGION_CELLS ==> at_pop[c] <= #[trigger] level@[c] <= 15,
                    forall|c: int| 0 <= c < REGION_CELLS ==> seed[c] <= #[trigger] at_pop[c],
                    forall|q: int| 0 <= q < queue@.len() ==> #[trigger] queue@[q] < REGION_CELLS,
                    q1.is_prefix_of(queue@),
                    forall|c: int|
                        0 <= c < REGION_CELLS && level@[c] != at_pop[c] ==> #[trigger] queue@.contains(
                            c as usize,
                        ),
                    deficit(level@) <= deficit(at_pop),
                    deficit(level@) == deficit(at_pop) ==> queue@.len() == q1.len(),
                    forall|kk: int|
                        0 <= kk < k ==> #[trigger] reaches(level@, solid@, sky, x as int, y as int, z as int, kk),
                    forall|a: int, b: int, c: int|
                        in_region(a, b, c) ==> #[trigger] justified(seed, solid@, level@, sky, a, b, c),
                decreases 6 - k,
            {
                let ghost lb = level@;
                let ghost qb = queue@;
                relax(level, solid, queue, sky, x, y, z, l, k, Ghost(seed));
                proof {
                    assert forall|c: int| 0 <= c < REGION_CELLS implies #[trigger] level@[c] <= mx by {
                        if level@[c] != lb[c] {
                            assert(level@[c] <= l);
                        } else {
                            assert(lb[c] <= mx);
                        }
                    }
                    assert(qb.is_prefix_of(queue@));
                    assert(q1.is_prefix_of(queue@)) by {
                        assert(queue@.subrange(0, q1.len() as int) =~= qb.subrange(0, q1.len() as int));
                    }
                    assert forall|q: int| 0 <= q < queue@.len() implies #[trigger] queue@[q] < REGION_CELLS by {
                        if q < qb.len() {
                            assert(queue@[q] == qb[q]);
                        }
                    }
                    assert forall|c: int|
                        0 <= c < REGION_CELLS && level@[c] != at_pop[c] implies #[trigger] queue@.contains(
                        c as usize,
                    ) by {
                        if level@[c] == lb[c] {
                            lemma_prefix_contains(qb, queue@, c as usize);
                        }
                    }
                    assert forall|kk: int| 0 <= kk < k + 1 implies #[trigger] reaches(
                        level@,
                        solid@,
                        sky,
                        x as int,
                        y as int,
                        z as int,
                        kk,
                    ) by {
                        if kk < k {
                            assert(reaches(lb, solid@, sky, x as int, y as int, z as int, kk));
                            let o = dir_offset(kk);
                            if in_region(x + o.0, y + o.1, z + o.2) {
                                lemma_ridx_bounds(x + o.0, y + o.1, z + o.2);
                            }
                        }
                    }
                }
                k += 1;
            }
        }
        proof {
            assert(q0 =~= seq![i].add(q1));
            assert forall|a: int, b: int, c: int|
                in_region(a, b, c) && !queue@.contains(ridx(a, b, c) as usize) implies #[trigger] settled(
                level@,
                solid@,
                sky,
                a,
                b,
                c,
            ) by {
                lemma_ridx_bounds(a, b, c);
                let ci = ridx(a, b, c);
                if ci == i as int {
                    lemma_ridx_injective(a, b, c, x as int, y as int, z as int);
                } else {
                    assert(!q1.contains(ci as usize)) by {
                        if q1.contains(ci as usize) {
                            lemma_prefix_contains(q1, queue@, ci as usize);
                        }
                    }
                    assert(!q0.contains(ci as usize)) by {
                        if q0.contains(ci as usize) {
                            let w = choose|w: int| 0 <= w < q0.len() && q0[w] == ci as usize;
                            assert(w != 0);
                            assert(q1[w - 1] == q0[w]);
                        }
                    }
                    assert(settled(at_pop, solid@, sky, a, b, c));
                    assert(level@[ci] == at_pop[ci]) by {
                        if level@[ci] != at_pop[ci] {
                            assert(queue@.contains(ci as usize));
                        }
                    }
                    assert forall|kk: int| 0 <= kk < 6 implies #[trigger] reaches(
                        level@,
                        solid@,
                        sky,
                        a,
                        b,
                        c,
                        kk,
                    ) by {
                        assert(reaches(at_pop, solid@, sky, a, b, c, kk));
                        let o = dir_offset(kk);
                        if in_region(a + o.0, b + o.1, c + o.2) {
                            lemma_ridx_bounds(a + o.0, b + o.1, c + o.2);
                        }
                    }
                }
            }
        }
    }
    proof {
        assert forall|c: int| 0 <= c < REGION_CELLS && solid@[c] implies #[trigger] level@[c] == seed[c] by {
            lemma_cell_coords(c);
            let a = c % 44;
            let b = (c / 44) % 44;
            let d = c / 1936;
            assert(justified(seed, solid@, level@, sky, a, b, d));
        }
        assert forall|m: int| #[trigger] levels_at_most(seed, m) implies levels_at_most(level@, m) by {
            let j = choose|j: int| 0 <= j < seed.len() && seed[j] == mx;
            assert(seed[j] <= m);
        }
        assert forall|m: int| #[trigger] levels_at_most(level@, m) implies levels_at_most(seed, m) by {
            assert forall|c: int| 0 <= c < REGION_CELLS implies #[trigger] seed[c] <= m by {
                assert(level@[c] <= m);
            }
        }
    }
}

/// Slot `c` of the region is the cell at `(c % 44, (c / 44) % 44, c / 1936)`.
proof fn lemma_cell_coords(c: int)
    requires
        0 <= c < REGION_CELLS,
    ensures
        in_region(c % 44, (c / 44) % 44, c / 1936),
        ridx(c % 44, (c / 44) % 44, c / 1936) == c,
{
    let x = c % 44;
    let y = (c / 44) % 44;
    let z = c / 1936;
    assert(c == x + y * 44 + z * 1936 && in_region(x, y, z)) by (nonlinear_arith)
        requires
            0 <= c < 85184,
            x == c % 44,
            y == (c / 44) % 44,
            z == c / 1936,
    {
        vstd::arithmetic::div_mod::lemma_fundamental_div_mod(c, 44);
        vstd::arithmetic::div_mod::lemma_fundamental_div_mod(c / 44, 44);
        vstd::arithmetic::div_mod::lemma_div_denominator(c, 44, 44);
    }
}

/// No level of `L` exceeds `m`.
pub open spec fn levels_at_most(L: Seq<u8>, m: int) -> bool {
    forall|c: int| 0 <= c < REGION_CELLS ==> #[trigger] L[c] <= m
}

/// The largest of the levels in `s` (`0` for none).
spec fn max_level(s: Seq<u8>) -> int
    decreases s.len(),
{
    if s.len() == 0 {
        0
    } else if s.last() as int > max_level(s.drop_last()) {
        s.last() as int
    } else {
        max_level(s.drop_last())
    }
}

proof fn lemma_max_level(s: Seq<u8>)
    ensures
        forall|j: int| 0 <= j < s.len() ==> s[j] <= max_level(s),
        s.len() > 0 ==> exists|j: int| 0 <= j < s.len() && s[j] == max_level(s),
    decreases s.len(),
{
    if s.len() > 0 {
        let t = s.drop_last();
        lemma_max_level(t);
        assert forall|j: int| 0 <= j < s.len() implies s[j] <= max_level(s) by {
            if j < t.len() {
                assert(t[j] == s[j]);
            }
        }
        if s.last() as int > max_level(t) {
            assert(s[s.len() - 1] == max_level(s));
        } else if t.len() == 0 {
            assert(s[0] == max_level(s));
        } else {
            let j = choose|j: int| 0 <= j < t.len() && t[j] == max_level(t);
            assert(s[j] == t[j]);
        }
    }
}

/// The region coordinates of slot `c`.
pub open spec fn region_of(c: int) -> (int, int, int) {
    (c % 44, (c / 44) % 44, c / 1936)
}

proof fn lemma_region_of(x: int, y: int, z: int)
    requires
        in_region(x, y, z),
    ensures
        region_of(ridx(x, y, z)) == (x, y, z),
{
    let c = ridx(x, y, z);
    vstd::arithmetic::div_mod::lemma_fundamental_div_mod_converse(c, 44, y + z * 44, x);
    vstd::arithmetic::div_mod::lemma_fundamental_div_mod_converse(y + z * 44, 44, z, y);
    vstd::arithmetic::div_mod::lemma_fundamental_div_mod_converse(c, 1936, z, x + y * 44);
}

/// The world position of region cell `(x, y, z)` for a chunk at `origin`.
pub open spec fn region_pos(origin: BlockPos, x: int, y: int, z: int) -> BlockPos {
    BlockPos {
        x: (origin.x - 6 + x) as i32,
        y: (origin.y - 6 + y) as i32,
        z: (origin.z - 6 + z) as i32,
    }
}

/// The definition of the block at region slot `c`.
pub open spec fn region_def<W: BlockSource>(world: &W, reg: Seq<Block>, origin: BlockPos, c: int) -> Block {
    let p = region_of(c);
    resolve(reg, world.block_spec(region_pos(origin, p.0, p.1, p.2)))
}

/// Which region cells block light: the opaque cubes.
pub open spec fn region_solid<W: BlockSource>(world: &W, reg: Seq<Block>, origin: BlockPos) -> Seq<bool> {
    Seq::new(85184, |c: int| region_def(world, reg, origin, c).render == RenderKind::OpaqueCube)
}

/// Block light seeds: each cell's emission.
pub open spec fn block_seed<W: BlockSource>(world: &W, reg: Seq<Block>, origin: BlockPos) -> Seq<u8> {
    Seq::new(85184, |c: int| region_def(world, reg, origin, c).light_emission)
}

/// Sky light seeds: full light in the open cells of the region's top plane.
pub open spec fn sky_seed<W: BlockSource>(world: &W, reg: Seq<Block>, origin: BlockPos) -> Seq<u8> {
    Seq::new(
        85184,
        |c: int|
            if region_of(c).1 == 43 && !region_solid(world, reg, origin)[c] {
                15u8
            } else {
                0u8
            },
    )
}

/// The baked light of the chunk at `origin` is read from the flood fills
/// `sky` and `blk` at the chunk-local cell shifted by the margin.
pub open spec fn light_from(r: &ChunkLight, sky: Seq<u8>, blk: Seq<u8>) -> bool {
    forall|x: int, y: int, z: int|
        light_in_range(x, y, z) ==> #[trigger] r.light_at(x, y, z) == (
            sky[ridx(x + 6, y + 6, z + 6)],
            blk[ridx(x + 6, y + 6, z + 6)],
        )
}

/// The block definition at chunk-local cell `(x, y, z)` of the chunk whose
/// origin is `origin`.
pub open spec fn local_def<W: BlockSource>(world: &W, reg: Seq<Block>, origin: BlockPos, x: int, y: int, z: int) -> Block {
    resolve(
        reg,
        world.block_spec(BlockPos { x: (origin.x + x) as i32, y: (origin.y + y) as i32, z: (origin.z + z) as i32 }),
    )
}

/// `(a, b, c)` shares a face with `(x, y, z)`.
pub open spec fn face_adjacent(x: int, y: int, z: int, a: int, b: int, c: int) -> bool {
    ||| (a == x + 1 || a == x - 1) && b == y && c == z
    ||| a == x && (b == y + 1 || b == y - 1) && c == z
    ||| a == x && b == y && (c == z + 1 || c == z - 1)
}

/// Light flows into every cell that is not an opaque cube: such a cell is
/// at most one level darker, in sky and in block light, than any cell next
/// to it, and full sky light falls straight down into it undimmed. Water,
/// glass, leaves, plants and air never block light.
pub open spec fn open_cells_take_light<W: BlockSource>(r: &ChunkLight, world: &W, reg: Seq<Block>, origin: BlockPos) -> bool {
    forall|x: int, y: int, z: int, a: int, b: int, c: int|
        #![trigger r.light_at(x, y, z), r.light_at(a, b, c)]
        light_in_range(x, y, z) && light_in_range(a, b, c) && face_adjacent(x, y, z, a, b, c)
            && local_def(world, reg, origin, a, b, c).render != RenderKind::OpaqueCube ==> {
            &&& r.light_at(a, b, c).0 + 1 >= r.light_at(x, y, z).0
            &&& r.light_at(a, b, c).1 + 1 >= r.light_at(x, y, z).1
            &&& (a == x && b == y - 1 && c == z && r.light_at(x, y, z).0 == 15) ==> r.light_at(a, b, c).0
                == 15
        }
}

/// Opaque cubes block light: an opaque cell gets no sky light and keeps
/// only its own emission as block light.
pub open spec fn opaque_cells_block_light<W: BlockSource>(r: &ChunkLight, world: &W, reg: Seq<Block>, origin: BlockPos) -> bool {
    forall|x: int, y: int, z: int|
        light_in_range(x, y, z) && local_def(world, reg, origin, x, y, z).render == RenderKind::OpaqueCube
            ==> #[trigger] r.light_at(x, y, z) == (0u8, local_def(world, reg, origin, x, y, z).light_emission)
}

/// The region slot of chunk-local cell `(x, y, z)` holds that cell's block.
proof fn lemma_region_slot_def<W: BlockSource>(world: &W, reg: Seq<Block>, origin: BlockPos, x: int, y: int, z: int)
    requires
        light_in_range(x, y, z),
    ensures
        in_region(x + 6, y + 6, z + 6),
        0 <= ridx(x + 6, y + 6, z + 6) < REGION_CELLS,
        region_def(world, reg, origin, ridx(x + 6, y + 6, z + 6)) == local_def(world, reg, origin, x, y, z),
        region_of(ridx(x + 6, y + 6, z + 6)) == (x + 6, y + 6, z + 6),
{
    lemma_region_of(x + 6, y + 6, z + 6);
    lemma_ridx_bounds(x + 6, y + 6, z + 6);
}

/// The flood fills that `bake` reads from make light pass through open
/// cells and stop at opaque ones.
#[verifier::spinoff_prover]
proof fn lemma_baked_cells<W: BlockSource>(
    r: &ChunkLight,
    world: &W,
    reg: Seq<Block>,
    origin: BlockPos,
    sky: Seq<u8>,
    blk: Seq<u8>,
)
    requires
        is_flood(sky_seed(world, reg, origin), region_solid(world, reg, origin), true, sky),
        is_flood(block_seed(world, reg, origin), region_solid(world, reg, origin), false, blk),
        light_from(r, sky, blk),
    ensures
        open_cells_take_light(r, world, reg, origin),
        opaque_cells_block_light(r, world, reg, origin),
{
    let solid = region_solid(world, reg, origin);
    assert forall|x: int, y: int, z: int, a: int, b: int, c: int|
        #![trigger r.light_at(x, y, z), r.light_at(a, b, c)]
        light_in_range(x, y, z) && light_in_range(a, b, c) && face_adjacent(x, y, z, a, b, c)
            && local_def(world, reg, origin, a, b, c).render != RenderKind::OpaqueCube implies {
        &&& r.light_at(a, b, c).0 + 1 >= r.light_at(x, y, z).0
        &&& r.light_at(a, b, c).1 + 1 >= r.light_at(x, y, z).1
        &&& (a == x && b == y - 1 && c == z && r.light_at(x, y, z).0 == 15) ==> r.light_at(a, b, c).0 == 15
    } by {
        lemma_region_slot_def(world, reg, origin, x, y, z);
        lemma_region_slot_def(world, reg, origin, a, b, c);
        let k: int = if a == x + 1 {
            0
        } else if a == x - 1 {
            1
        } else if b == y + 1 {
            2
        } else if b == y - 1 {
            3
        } else if c == z + 1 {
            4
        } else {
            5
        };
        assert(dir_offset(k) == (a - x, b - y, c - z));
        let n = ridx(a + 6, b + 6, c + 6);
        assert(!solid[n]);
        assert(settled(sky, solid, true, x + 6, y + 6, z + 6));
        assert(reaches(sky, solid, true, x + 6, y + 6, z + 6, k));
        assert(settled(blk, solid, false, x + 6, y + 6, z + 6));
        assert(reaches(blk, solid, false, x + 6, y + 6, z + 6, k));
    }
    assert forall|x: int, y: int, z: int|
        light_in_range(x, y, z) && local_def(world, reg, origin, x, y, z).render == RenderKind::OpaqueCube
            implies #[trigger] r.light_at(x, y, z) == (0u8, local_def(world, reg, origin, x, y, z).light_emission) by {
        lemma_region_slot_def(world, reg, origin, x, y, z);
        let n = ridx(x + 6, y + 6, z + 6);
        assert(solid[n]);
        assert(justified(sky_seed(world, reg, origin), solid, sky, true, x + 6, y + 6, z + 6));
        assert(justified(block_seed(world, reg, origin), solid, blk, false, x + 6, y + 6, z + 6));
    }
}

/// Light fades as it spreads: inside the chunk, every cell holds at least
/// its own emission as block light; block light above that emission, and
/// any sky light, comes from a face neighbour one level brighter, except
/// full sky light, which a cell may also take undimmed from the cell right
/// above it; and only cells that are not opaque cubes are lit that way.
pub open spec fn light_fades<W: BlockSource>(r: &ChunkLight, world: &W, reg: Seq<Block>, origin: BlockPos) -> bool {
    &&& forall|x: int, y: int, z: int|
        light_in_range(x, y, z) ==> #[trigger] r.light_at(x, y, z).1 >= local_def(world, reg, origin, x, y, z).light_emission
    &&& forall|x: int, y: int, z: int|
        0 <= x < 32 && 0 <= y < 32 && 0 <= z < 32 && #[trigger] r.light_at(x, y, z).1 > local_def(
            world,
            reg,
            origin,
            x,
            y,
            z,
        ).light_emission ==> {
            &&& local_def(world, reg, origin, x, y, z).render != RenderKind::OpaqueCube
            &&& exists|a: int, b: int, c: int|
                face_adjacent(x, y, z, a, b, c) && #[trigger] r.light_at(a, b, c).1 >= r.light_at(x, y, z).1 + 1
        }
    &&& forall|x: int, y: int, z: int|
        0 <= x < 32 && 0 <= y < 32 && 0 <= z < 32 && #[trigger] r.light_at(x, y, z).0 > 0 ==> {
            &&& local_def(world, reg, origin, x, y, z).render != RenderKind::OpaqueCube
            &&& (r.light_at(x, y, z).0 == 15 && r.light_at(x, y + 1, z).0 == 15) || exists|a: int, b: int, c: int|
                face_adjacent(x, y, z, a, b, c) && #[trigger] r.light_at(a, b, c).0 >= r.light_at(x, y, z).0 + 1
        }
}

/// The flood fills that `bake` reads from fade as light spreads.
#[verifier::spinoff_prover]
proof fn lemma_baked_fading<W: BlockSource>(
    r: &ChunkLight,
    world: &W,
    reg: Seq<Block>,
    origin: BlockPos,
    sky: Seq<u8>,
    blk: Seq<u8>,
)
    requires
        is_flood(sky_seed(world, reg, origin), region_solid(world, reg, origin), true, sky),
        is_flood(block_seed(world, reg, origin), region_solid(world, reg, origin), false, blk),
        light_from(r, sky, blk),
    ensures
        light_fades(r, world, reg, origin),
{
    let solid = region_solid(world, reg, origin);
    let bs = block_seed(world, reg, origin);
    let ss = sky_seed(world, reg, origin);
    assert forall|x: int, y: int, z: int| light_in_range(x, y, z) implies #[trigger] r.light_at(x, y, z).1
        >= local_def(world, reg, origin, x, y, z).light_emission by {
        lemma_region_slot_def(world, reg, origin, x, y, z);
    }
    assert forall|x: int, y: int, z: int|
        0 <= x < 32 && 0 <= y < 32 && 0 <= z < 32 && #[trigger] r.light_at(x, y, z).1 > local_def(
            world,
            reg,
            origin,
            x,
            y,
            z,
        ).light_emission implies {
        &&& local_def(world, reg, origin, x, y, z).render != RenderKind::OpaqueCube
        &&& exists|a: int, b: int, c: int|
            face_adjacent(x, y, z, a, b, c) && #[trigger] r.light_at(a, b, c).1 >= r.light_at(x, y, z).1 + 1
    } by {
        lemma_region_slot_def(world, reg, origin, x, y, z);
        assert(justified(bs, solid, blk, false, x + 6, y + 6, z + 6));
        let k = choose|k: int|
            0 <= k < 6 && #[trigger] feeds(
                blk,
                false,
                x + 6 - dir_offset(k).0,
                y + 6 - dir_offset(k).1,
                z + 6 - dir_offset(k).2,
                k,
            );
        let o = dir_offset(k);
        let (a, b, c) = (x - o.0, y - o.1, z - o.2);
        lemma_region_slot_def(world, reg, origin, a, b, c);
        assert(face_adjacent(x, y, z, a, b, c));
        assert(r.light_at(a, b, c).1 >= r.light_at(x, y, z).1 + 1);
    }
    assert forall|x: int, y: int, z: int|
        0 <= x < 32 && 0 <= y < 32 && 0 <= z < 32 && #[trigger] r.light_at(x, y, z).0 > 0 implies {
        &&& local_def(world, reg, origin, x, y, z).render != RenderKind::OpaqueCube
        &&& (r.light_at(x, y, z).0 == 15 && r.light_at(x, y + 1, z).0 == 15) || exists|a: int, b: int, c: int|
            face_adjacent(x, y, z, a, b, c) && #[trigger] r.light_at(a, b, c).0 >= r.light_at(x, y, z).0 + 1
    } by {
        lemma_region_slot_def(world, reg, origin, x, y, z);
        assert(region_of(ridx(x + 6, y + 6, z + 6)).1 != 43);
        assert(justified(ss, solid, sky, true, x + 6, y + 6, z + 6));
        let k = choose|k: int|
            0 <= k < 6 && #[trigger] feeds(
                sky,
                true,
                x + 6 - dir_offset(k).0,
                y + 6 - dir_offset(k).1,
                z + 6 - dir_offset(k).2,
                k,
            );
        let o = dir_offset(k);
        let (a, b, c) = (x - o.0, y - o.1, z - o.2);
        lemma_region_slot_def(world, reg, origin, a, b, c);
        assert(face_adjacent(x, y, z, a, b, c));
        if !(r.light_at(x, y, z).0 == 15 && r.light_at(x, y + 1, z).0 == 15) {
            assert(r.light_at(a, b, c).0 >= r.light_at(x, y, z).0 + 1);
        }
    }
}

/// Bake the light for the chunk whose origin (world coordinates of its
/// `(0, 0, 0)`) is `origin`, reading blocks from `world` over the chunk plus
/// a margin on every side. Block emissions are light levels (`0..=15`).
pub fn bake<W: BlockSource>(origin: BlockPos, world: &W, reg: &BlockRegistry) -> (r: ChunkLight)
    requires
        world.source_wf(),
        reg@.len() > 0,
        forall|i: int| 0 <= i < reg@.len() ==> #[trigger] reg@[i].light_emission <= 15,
        i32::MIN + 6 <= origin.x && origin.x + 37 <= i32::MAX,
        i32::MIN + 6 <= origin.y && origin.y + 37 <= i32::MAX,
        i32::MIN + 6 <= origin.z && origin.z + 37 <= i32::MAX,
    ensures
        r.wf(),
        exists|sky: Seq<u8>, blk: Seq<u8>|
            is_flood(sky_seed(world, reg@, origin), region_solid(world, reg@, origin), true, sky)
                && is_flood(block_seed(world, reg@, origin), region_solid(world, reg@, origin), false, blk)
                && #[trigger] light_from(&r, sky, blk),
        open_cells_take_light(&r, world, reg@, origin),
        opaque_cells_block_light(&r, world, reg@, origin),
        light_fades(&r, world, reg@, origin),
{
    let ghost solid_s = region_solid(world, reg@, origin);
    let ghost bseed = block_seed(world, reg@, origin);
    let ghost sseed = sky_seed(world, reg@, origin);
    let mut solid: Vec<bool> = vec![false; REGION_CELLS];
    let mut sky: Vec<u8> = vec![0u8; REGION_CELLS];
    let mut block: Vec<u8> = vec![0u8; REGION_CELLS];
    let mut queue_sky: VecDeque<usize> = VecDeque::new();
    let mut queue_block: VecDeque<usize> = VecDeque::new();
    let mut rz: i32 = 0;
    while rz < REGION
        invariant
            world.source_wf(),
            reg@.len() > 0,
            forall|i: int| 0 <= i < reg@.len() ==> #[trigger] reg@[i].light_emission <= 15,
            i32::MIN + 6 <= origin.x && origin.x + 37 <= i32::MAX,
            i32::MIN + 6 <= origin.y && origin.y + 37 <= i32::MAX,
            i32::MIN + 6 <= origin.z && origin.z + 37 <= i32::MAX,
            solid_s == region_solid(world, reg@, origin),
            bseed == block_seed(world, reg@, origin),
            0 <= rz <= REGION,
            solid@.len() == REGION_CELLS,
            block@.len() == REGION_CELLS,
            forall|c: int| 0 <= c < REGION_CELLS ==> #[trigger] solid@[c] == (c < rz * 1936 && solid_s[c]),
            forall|c: int|
                0 <= c < REGION_CELLS ==> #[trigger] block@[c] == (if c < rz * 1936 {
                    bseed[c]
                } else {
                    0u8
                }),
            forall|q: int| 0 <= q < queue_block@.len() ==> #[trigger] queue_block@[q] < REGION_CELLS,
            forall|c: int| 0 <= c < REGION_CELLS && block@[c] != 0 ==> #[trigger] queue_block@.contains(c as usize),
        decreases REGION - rz,
    {
        let mut ry: i32 = 0;
        while ry < REGION
            invariant
                world.source_wf(),
                reg@.len() > 0,
                forall|i: int| 0 <= i < reg@.len() ==> #[trigger] reg@[i].light_emission <= 15,
                i32::MIN + 6 <= origin.x && origin.x + 37 <= i32::MAX,
                i32::MIN + 6 <= origin.y && origin.y + 37 <= i32::MAX,
                i32::MIN + 6 <= origin.z && origin.z + 37 <= i32::MAX,
                solid_s == region_solid(world, reg@, origin),
                bseed == block_seed(world, reg@, origin),
                0 <= rz < REGION,
                0 <= ry <= REGION,
                solid@.len() == REGION_CELLS,
                block@.len() == REGION_CELLS,
                forall|c: int|
                    0 <= c < REGION_CELLS ==> #[trigger] solid@[c] == (c < rz * 1936 + ry * 44 && solid_s[c]),
                forall|c: int|
                    0 <= c < REGION_CELLS ==> #[trigger] block@[c] == (if c < rz * 1936 + ry * 44 {
                        bseed[c]
                    } else {
                        0u8
                    }),
                forall|q: int| 0 <= q < queue_block@.len() ==> #[trigger] queue_block@[q] < REGION_CELLS,
                forall|c: int|
                    0 <= c < REGION_CELLS && block@[c] != 0 ==> #[trigger] queue_block@.contains(c as usize),
            decreases REGION - ry,
        {
            let mut rx: i32 = 0;
            while rx < REGION
                invariant
                    world.source_wf(),
                    reg@.len() > 0,
                    forall|i: int| 0 <= i < reg@.len() ==> #[trigger] reg@[i].light_emission <= 15,
                    i32::MIN + 6 <= origin.x && origin.x + 37 <= i32::MAX,
                    i32::MIN + 6 <= origin.y && origin.y + 37 <= i32::MAX,
                    i32::MIN + 6 <= origin.z && origin.z + 37 <= i32::MAX,
                    solid_s == region_solid(world, reg@, origin),
                    bseed == block_seed(world, reg@, origin),
                    0 <= rz < REGION,
                    0 <= ry < REGION,
                    0 <= rx <= REGION,
                    solid@.len() == REGION_CELLS,
                    block@.len() == REGION_CELLS,
                    forall|c: int|
                        0 <= c < REGION_CELLS ==> #[trigger] solid@[c] == (c < rz * 1936 + ry * 44 + rx
                            && solid_s[c]),
                    forall|c: int|
                        0 <= c < REGION_CELLS ==> #[trigger] block@[c] == (if c < rz * 1936 + ry * 44 + rx {
                            bseed[c]
                        } else {
                            0u8
                        }),
                    forall|q: int| 0 <= q < queue_block@.len() ==> #[trigger] queue_block@[q] < REGION_CELLS,
                    forall|c: int|
                        0 <= c < REGION_CELLS && block@[c] != 0 ==> #[trigger] queue_block@.contains(
                            c as usize,
                        ),
                decreases REGION - rx,
            {
                let wp = BlockPos::new(origin.x - MARGIN + rx, origin.y - MARGIN + ry, origin.z - MARGIN + rz);
                let i = (rx + ry * REGION + rz * REGION * REGION) as usize;
                let def = reg.get(world.block_at(wp));
                proof {
                    lemma_region_of(rx as int, ry as int, rz as int);
                    assert(region_def(world, reg@, origin, i as int) == *def);
                    assert(solid_s[i as int] == (def.render == RenderKind::OpaqueCube));
                    assert(bseed[i as int] == def.light_emission);
                }
                if def.occludes() {
                    solid.set(i, true);
                }
                if def.light_emission > 0 {
                    block.set(i, def.light_emission);
                    let ghost bq = queue_block@;
                    queue_block.push_back(i);
                    proof {
                        assert forall|c: int|
                            0 <= c < REGION_CELLS && block@[c] != 0 implies #[trigger] queue_block@.contains(
                            c as usize,
                        ) by {
                            if c == i {
                                assert(queue_block@[bq.len() as int] == i);
                            } else {
                                assert(bq.contains(c as usize));
                                let w = choose|w: int| 0 <= w < bq.len() && bq[w] == c as usize;
                                assert(queue_block@[w] == c as usize);
                            }
                        }
                    }
                }
                rx += 1;
            }
            ry += 1;
        }
        rz += 1;
    }
    // Seed sky light at the top plane of the region (open sky above).
    let top = REGION - 1;
    let mut rz: i32 = 0;
    while rz < REGION
        invariant
            solid@.len() == REGION_CELLS,
            sky@.len() == REGION_CELLS,
            solid@ == solid_s,
            sseed == sky_seed(world, reg@, origin),
            solid_s == region_solid(world, reg@, origin),
            top == 43,
            0 <= rz <= REGION,
            forall|c: int|
                0 <= c < REGION_CELLS ==> #[trigger] sky@[c] == (if region_of(c).2 < rz {
                    sseed[c]
                } else {
                    0u8
                }),
            forall|q: int| 0 <= q < queue_sky@.len() ==> #[trigger] queue_sky@[q] < REGION_CELLS,
            forall|c: int| 0 <= c < REGION_CELLS && sky@[c] != 0 ==> #[trigger] queue_sky@.contains(c as usize),
        decreases REGION - rz,
    {
        let mut rx: i32 = 0;
        while rx < REGION
            invariant
                solid@.len() == REGION_CELLS,
                sky@.len() == REGION_CELLS,
                solid@ == solid_s,
                sseed == sky_seed(world, reg@, origin),
                solid_s == region_solid(world, reg@, origin),
                top == 43,
                0 <= rz < REGION,
                0 <= rx <= REGION,
                forall|c: int|
                    0 <= c < REGION_CELLS ==> #[trigger] sky@[c] == (if region_of(c).2 < rz || (
                    region_of(c).2 == rz && region_of(c).0 < rx) {
                        sseed[c]
                    } else {
                        0u8
                    }),
                forall|q: int| 0 <= q < queue_sky@.len() ==> #[trigger] queue_sky@[q] < REGION_CELLS,
                forall|c: int|
                    0 <= c < REGION_CELLS && sky@[c] != 0 ==> #[trigger] queue_sky@.contains(c as usize),
            decreases REGION - rx,
        {
            let i = (rx + top * REGION + rz * REGION * REGION) as usize;
            proof {
                lemma_region_of(rx as int, top as int, rz as int);
            }
            if !solid[i] {
                sky.set(i, 15);
                let ghost bq = queue_sky@;
                queue_sky.push_back(i);
                proof {
                    assert forall|c: int|
                        0 <= c < REGION_CELLS && sky@[c] != 0 implies #[trigger] queue_sky@.contains(
                        c as usize,
                    ) by {
                        if c == i {
                            assert(queue_sky@[bq.len() as int] == i);
                        } else {
                            assert(bq.contains(c as usize));
                            let w = choose|w: int| 0 <= w < bq.len() && bq[w] == c as usize;
                            assert(queue_sky@[w] == c as usize);
                        }
                    }
                }
            }
            proof {
                assert forall|c: int| 0 <= c < REGION_CELLS implies #[trigger] sky@[c] == (if region_of(c).2
                    < rz || (region_of(c).2 == rz && region_of(c).0 < rx + 1) {
                    sseed[c]
                } else {
                    0u8
                }) by {
                    let p = region_of(c);
                    lemma_region_coords_of(c);
                    if p.2 == rz && p.0 == rx {
                        if p.1 == 43 {
                            lemma_ridx_injective(p.0, p.1, p.2, rx as int, top as int, rz as int);
                        } else if c == i {
                            lemma_ridx_injective(p.0, p.1, p.2, rx as int, top as int, rz as int);
                        }
                    } else if c == i {
                        lemma_ridx_injective(p.0, p.1, p.2, rx as int, top as int, rz as int);
                    }
                }
            }
            rx += 1;
        }
        rz += 1;
    }
    proof {
        assert(sky@ =~= sseed) by {
            assert forall|c: int| 0 <= c < REGION_CELLS implies sky@[c] == sseed[c] by {
                lemma_region_coords_of(c);
            }
        }
        assert(block@ =~= bseed);
        assert forall|x: int, y: int, z: int|
            in_region(x, y, z) && !queue_sky@.contains(ridx(x, y, z) as usize) implies #[trigger] settled(
            sky@,
            solid@,
            true,
            x,
            y,
            z,
        ) by {
            lemma_ridx_bounds(x, y, z);
        }
        assert forall|x: int, y: int, z: int|
            in_region(x, y, z) && !queue_block@.contains(ridx(x, y, z) as usize) implies #[trigger] settled(
            block@,
            solid@,
            false,
            x,
            y,
            z,
        ) by {
            lemma_ridx_bounds(x, y, z);
        }
    }
    propagate(&mut sky, &solid, &mut queue_sky, true);
    propagate(&mut block, &solid, &mut queue_block, false);
    // Copy the chunk and its one-block ring into the mesher's light grid.
    let mut light = ChunkLight::dark();
    let mut lz: i32 = -1;
    while lz <= 32
        invariant
            light.wf(),
            sky@.len() == REGION_CELLS,
            block@.len() == REGION_CELLS,
            -1 <= lz <= 33,
            forall|x: int, y: int, z: int|
                light_in_range(x, y, z) ==> #[trigger] light.light_at(x, y, z) == (if z < lz {
                    (sky@[ridx(x + 6, y + 6, z + 6)], block@[ridx(x + 6, y + 6, z + 6)])
                } else {
                    (0u8, 0u8)
                }),
        decreases 33 - lz,
    {
        let mut ly: i32 = -1;
        while ly <= 32
            invariant
                light.wf(),
                sky@.len() == REGION_CELLS,
                block@.len() == REGION_CELLS,
                -1 <= lz <= 32,
                -1 <= ly <= 33,
                forall|x: int, y: int, z: int|
                    light_in_range(x, y, z) ==> #[trigger] light.light_at(x, y, z) == (if z < lz || (z
                        == lz && y < ly) {
                        (sky@[ridx(x + 6, y + 6, z + 6)], block@[ridx(x + 6, y + 6, z + 6)])
                    } else {
                        (0u8, 0u8)
                    }),
            decreases 33 - ly,
        {
            let mut lx: i32 = -1;
            while lx <= 32
                invariant
                    light.wf(),
                    sky@.len() == REGION_CELLS,
                    block@.len() == REGION_CELLS,
                    -1 <= lz <= 32,
                    -1 <= ly <= 32,
                    -1 <= lx <= 33,
                    forall|x: int, y: int, z: int|
                        light_in_range(x, y, z) ==> #[trigger] light.light_at(x, y, z) == (if z < lz || (z
                            == lz && y < ly) || (z == lz && y == ly && x < lx) {
                            (sky@[ridx(x + 6, y + 6, z + 6)], block@[ridx(x + 6, y + 6, z + 6)])
                        } else {
                            (0u8, 0u8)
                        }),
                decreases 33 - lx,
            {
                let i = ((lx + MARGIN) + (ly + MARGIN) * REGION + (lz + MARGIN) * REGION * REGION) as usize;
                proof {
                    lemma_ridx_bounds(lx + 6, ly + 6, lz + 6);
                }
                light.set(lx, ly, lz, sky[i], block[i]);
                lx += 1;
            }
            ly += 1;
        }
        lz += 1;
    }
    proof {
        assert(light_from(&light, sky@, block@));
        lemma_baked_cells(&light, world, reg@, origin, sky@, block@);
        lemma_baked_fading(&light, world, reg@, origin, sky@, block@);
    }
    light
}

proof fn lemma_region_coords_of(c: int)
    requires
        0 <= c < REGION_CELLS,
    ensures
        in_region(region_of(c).0, region_of(c).1, region_of(c).2),
        ridx(region_of(c).0, region_of(c).1, region_of(c).2) == c,
{
    assert(c == (c % 44) + ((c / 44) % 44) * 44 + (c / 1936) * 1936) by (nonlinear_arith)
        requires
            0 <= c,
    {
        vstd::arithmetic::div_mod::lemma_fundamental_div_mod(c, 44);
        vstd::arithmetic::div_mod::lemma_fundamental_div_mod(c / 44, 44);
        vstd::arithmetic::div_mod::lemma_div_denominator(c, 44, 44);
    }
    assert(c / 1936 < 44) by (nonlinear_arith)
        requires
            0 <= c < 85184,
    ;
}

} // verus!
