//! World and chunk coordinate systems and conversions.
//!
//! The world is partitioned into cubic chunks of [`CHUNK_SIZE`] voxels per
//! edge. The edge length is a power of two so that converting between
//! world-space block coordinates and (chunk, local) pairs reduces to
//! arithmetic shifts and masks instead of integer division.

use vstd::prelude::*;

verus! {

/// Number of voxels along one edge of a chunk.
pub const CHUNK_SIZE: usize = 32;
/// `log2(CHUNK_SIZE)` — used for shift-based coordinate math.
pub const CHUNK_SIZE_BITS: u32 = 5;
/// Mask isolating the in-chunk component of a world coordinate.
pub const CHUNK_MASK: i32 = 31;
/// Total voxels in a chunk.
pub const CHUNK_VOLUME: usize = 32768;

/// The two's-complement wrap of a mathematical integer into `i32`.
pub open spec fn wrap_i32(v: int) -> i32 {
    v as i32
}

/// Floor division of a world coordinate by the chunk edge: the chunk index
/// along one axis.
pub open spec fn chunk_coord(v: int) -> int {
    v / 32
}

/// The in-chunk offset (`0..32`) of a world coordinate along one axis.
pub open spec fn local_coord(v: int) -> int {
    v % 32
}

/// Position of a chunk on the chunk grid (one unit = one chunk edge).
#[derive(Clone, Copy, PartialEq, Eq, Structural, Hash, Debug, Default)]
pub struct ChunkPos {
    pub x: i32,
    pub y: i32,
    pub z: i32,
}

/// A voxel position in world space.
#[derive(Clone, Copy, PartialEq, Eq, Structural, Hash, Debug, Default)]
pub struct BlockPos {
    pub x: i32,
    pub y: i32,
    pub z: i32,
}

/// A voxel position within a single chunk; each axis is in `0..CHUNK_SIZE`.
#[derive(Clone, Copy, PartialEq, Eq, Structural, Hash, Debug)]
pub struct LocalPos {
    pub x: u8,
    pub y: u8,
    pub z: u8,
}

proof fn lemma_shl5(v: i32)
    ensures
        v << 5u32 == wrap_i32(v * 32),
{
    assert(v << 5u32 == (v * 32) as i32) by (bit_vector);
}

proof fn lemma_shr5(v: i32)
    ensures
        (v >> 5u32) as int == chunk_coord(v as int),
        (v & 31i32) as int == local_coord(v as int),
{
    assert((v >> 5u32) as int == (v as int) / 32) by (bit_vector);
    assert((v & 31i32) as int == (v as int) % 32) by (bit_vector);
}

impl ChunkPos {
    pub fn new(x: i32, y: i32, z: i32) -> (r: Self)
        ensures
            r == (ChunkPos { x, y, z }),
    {
        ChunkPos { x, y, z }
    }

    /// World-space block coordinate of this chunk's `(0,0,0)` corner. Each
    /// axis is the chunk coordinate times the chunk edge, wrapping in `i32`.
    pub fn origin(self) -> (r: BlockPos)
        ensures
            r.x == wrap_i32(self.x * 32),
            r.y == wrap_i32(self.y * 32),
            r.z == wrap_i32(self.z * 32),
    {
        proof {
            lemma_shl5(self.x);
            lemma_shl5(self.y);
            lemma_shl5(self.z);
        }
        BlockPos::new(
            self.x << CHUNK_SIZE_BITS,
            self.y << CHUNK_SIZE_BITS,
            self.z << CHUNK_SIZE_BITS,
        )
    }

    /// Squared distance (in chunk units) to another chunk.
    pub fn distance_sq(self, other: ChunkPos) -> (r: i64)
        requires
            i32::MIN <= self.x - other.x <= i32::MAX,
            i32::MIN <= self.y - other.y <= i32::MAX,
            i32::MIN <= self.z - other.z <= i32::MAX,
            (self.x - other.x) * (self.x - other.x) + (self.y - other.y) * (self.y - other.y) + (
            self.z - other.z) * (self.z - other.z) <= i64::MAX,
        ensures
            r == (self.x - other.x) * (self.x - other.x) + (self.y - other.y) * (self.y - other.y)
                + (self.z - other.z) * (self.z - other.z),
    {
        let dx = (self.x - other.x) as i64;
        let dy = (self.y - other.y) as i64;
        let dz = (self.z - other.z) as i64;
        assert(0 <= dx * dx <= 0x4000_0000_0000_0000) by (nonlinear_arith)
            requires
                -0x8000_0000 <= dx <= 0x7fff_ffff,
        ;
        assert(0 <= dy * dy <= 0x4000_0000_0000_0000) by (nonlinear_arith)
            requires
                -0x8000_0000 <= dy <= 0x7fff_ffff,
        ;
        assert(0 <= dz * dz <= 0x4000_0000_0000_0000) by (nonlinear_arith)
            requires
                -0x8000_0000 <= dz <= 0x7fff_ffff,
        ;
        dx * dx + dy * dy + dz * dz
    }

    pub fn offset(self, dx: i32, dy: i32, dz: i32) -> (r: Self)
        requires
            i32::MIN <= self.x + dx <= i32::MAX,
            i32::MIN <= self.y + dy <= i32::MAX,
            i32::MIN <= self.z + dz <= i32::MAX,
        ensures
            r.x == self.x + dx,
            r.y == self.y + dy,
            r.z == self.z + dz,
    {
        Self::new(self.x + dx, self.y + dy, self.z + dz)
    }
}

impl BlockPos {
    pub fn new(x: i32, y: i32, z: i32) -> (r: Self)
        ensures
            r == (BlockPos { x, y, z }),
    {
        BlockPos { x, y, z }
    }

    /// Which chunk contains this block: floor division of each axis by the
    /// chunk edge (negative coordinates round toward negative infinity).
    pub fn chunk(self) -> (r: ChunkPos)
        ensures
            r.x as int == chunk_coord(self.x as int),
            r.y as int == chunk_coord(self.y as int),
            r.z as int == chunk_coord(self.z as int),
    {
        proof {
            lemma_shr5(self.x);
            lemma_shr5(self.y);
            lemma_shr5(self.z);
        }
        ChunkPos::new(
            self.x >> CHUNK_SIZE_BITS,
            self.y >> CHUNK_SIZE_BITS,
            self.z >> CHUNK_SIZE_BITS,
        )
    }

    /// Coordinates of this block relative to its containing chunk
    /// (`0..CHUNK_SIZE`, the non-negative remainder on each axis).
    pub fn local(self) -> (r: LocalPos)
        ensures
            r.x as int == local_coord(self.x as int),
            r.y as int == local_coord(self.y as int),
            r.z as int == local_coord(self.z as int),
            r.wf(),
    {
        proof {
            lemma_shr5(self.x);
            lemma_shr5(self.y);
            lemma_shr5(self.z);
        }
        LocalPos {
            x: (self.x & CHUNK_MASK) as u8,
            y: (self.y & CHUNK_MASK) as u8,
            z: (self.z & CHUNK_MASK) as u8,
        }
    }

    pub fn offset(self, dx: i32, dy: i32, dz: i32) -> (r: Self)
        requires
            i32::MIN <= self.x + dx <= i32::MAX,
            i32::MIN <= self.y + dy <= i32::MAX,
            i32::MIN <= self.z + dz <= i32::MAX,
        ensures
            r.x == self.x + dx,
            r.y == self.y + dy,
            r.z == self.z + dz,
    {
        Self::new(self.x + dx, self.y + dy, self.z + dz)
    }
}

/// The linear index `x + z*32 + y*32*32` of an in-chunk position.
pub open spec fn local_index(x: int, y: int, z: int) -> int {
    x + z * 32 + y * 1024
}

impl LocalPos {
    /// Every axis lies in `0..CHUNK_SIZE`.
    pub open spec fn wf(self) -> bool {
        self.x < 32 && self.y < 32 && self.z < 32
    }

    /// Build from raw axis values, each of which must be in range.
    pub fn new(x: u8, y: u8, z: u8) -> (r: Self)
        requires
            x < 32,
            y < 32,
            z < 32,
        ensures
            r == (LocalPos { x, y, z }),
            r.wf(),
    {
        LocalPos { x, y, z }
    }

    /// Flatten to a linear index (`x + z*S + y*S*S`, Y-major); in
    /// `0..CHUNK_VOLUME` for an in-range position.
    pub fn index(self) -> (r: usize)
        ensures
            r == local_index(self.x as int, self.y as int, self.z as int),
            self.wf() ==> r < CHUNK_VOLUME,
    {
        (self.x as usize) + (self.z as usize) * CHUNK_SIZE + (self.y as usize) * CHUNK_SIZE
            * CHUNK_SIZE
    }

    /// Inverse of [`LocalPos::index`]: `x` and `z` are the low two base-32
    /// digits of `i`, `y` the rest (truncated to a byte).
    pub fn from_index(i: usize) -> (r: Self)
        ensures
            r.x == i % 32,
            r.z == (i / 32) % 32,
            r.y == ((i / 1024) as u8),
            i < CHUNK_VOLUME ==> r.wf() && local_index(r.x as int, r.y as int, r.z as int) == i,
    {
        let x = i & (CHUNK_SIZE - 1);
        let z = (i >> CHUNK_SIZE_BITS) & (CHUNK_SIZE - 1);
        let y = i >> (CHUNK_SIZE_BITS * 2);
        assert(x == i % 32) by (bit_vector)
            requires
                x == i & 31usize,
        ;
        assert(z == (i / 32) % 32) by (bit_vector)
            requires
                z == (i >> 5u32) & 31usize,
        ;
        assert(y == i / 1024) by (bit_vector)
            requires
                y == i >> 10u32,
        ;
        LocalPos { x: x as u8, y: y as u8, z: z as u8 }
    }

    /// World-space block position given the owning chunk.
    pub fn to_block(self, chunk: ChunkPos) -> (r: BlockPos)
        requires
            i32::MIN <= wrap_i32(chunk.x * 32) + self.x <= i32::MAX,
            i32::MIN <= wrap_i32(chunk.y * 32) + self.y <= i32::MAX,
            i32::MIN <= wrap_i32(chunk.z * 32) + self.z <= i32::MAX,
        ensures
            r.x == wrap_i32(chunk.x * 32) + self.x,
            r.y == wrap_i32(chunk.y * 32) + self.y,
            r.z == wrap_i32(chunk.z * 32) + self.z,
    {
        let o = chunk.origin();
        BlockPos::new(o.x + self.x as i32, o.y + self.y as i32, o.z + self.z as i32)
    }
}

/// Splitting a block position into (chunk, local) and rebuilding it gives
/// back the same position, for every block position.
pub proof fn lemma_chunk_local_roundtrip(b: BlockPos)
    ensures
        ({
            let c = ChunkPos {
                x: chunk_coord(b.x as int) as i32,
                y: chunk_coord(b.y as int) as i32,
                z: chunk_coord(b.z as int) as i32,
            };
            &&& wrap_i32(c.x * 32) + local_coord(b.x as int) == b.x
            &&& wrap_i32(c.y * 32) + local_coord(b.y as int) == b.y
            &&& wrap_i32(c.z * 32) + local_coord(b.z as int) == b.z
        }),
{
    lemma_axis_roundtrip(b.x);
    lemma_axis_roundtrip(b.y);
    lemma_axis_roundtrip(b.z);
}

proof fn lemma_axis_roundtrip(v: i32)
    ensures
        wrap_i32((chunk_coord(v as int) as i32) * 32) + local_coord(v as int) == v,
{
    let c = chunk_coord(v as int);
    assert(c * 32 + local_coord(v as int) == v);
    assert(-0x400_0000 <= c < 0x400_0000);
    assert((c as i32) as int == c);
    assert(i32::MIN <= c * 32 <= i32::MAX);
}

/// Flattening an in-range local position and unflattening the index gives
/// back the position; unflattening an in-range index and flattening gives
/// back the index.
pub proof fn lemma_local_index_roundtrip(x: int, y: int, z: int, i: int)
    requires
        0 <= x < 32,
        0 <= y < 32,
        0 <= z < 32,
        0 <= i < 32768,
    ensures
        local_index(x, y, z) % 32 == x,
        (local_index(x, y, z) / 32) % 32 == z,
        local_index(x, y, z) / 1024 == y,
        0 <= local_index(x, y, z) < 32768,
        local_index(i % 32, i / 1024, (i / 32) % 32) == i,
{
}

} // verus!
