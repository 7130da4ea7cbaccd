//! Adapters that let the mesher and physics read from a live [`World`].

use crate::block::{resolve, BlockId, BlockRegistry};
use crate::chunk::ChunkStorage;
use crate::coords::{chunk_coord, local_coord, local_index, BlockPos, ChunkPos, LocalPos};
use crate::mesh::BlockSampler;
use crate::world::{block_in, key_of, World};
use vstd::prelude::*;

verus! {

/// Whether a chunk position's origin and its one-block border ring are
/// addressable in `i32` world coordinates.
pub open spec fn ring_addressable(pos: ChunkPos) -> bool {
    -67108863 <= pos.x <= 67108862 && -67108863 <= pos.y <= 67108862 && -67108863 <= pos.z
        <= 67108862
}

/// The world position of chunk-local `(x, y, z)` in the chunk at `pos`.
pub open spec fn world_of(pos: ChunkPos, x: int, y: int, z: int) -> BlockPos {
    BlockPos { x: (pos.x * 32 + x) as i32, y: (pos.y * 32 + y) as i32, z: (pos.z * 32 + z) as i32 }
}

/// Mesher sampler for one chunk. Interior reads hit the chunk's own storage
/// directly; only the one-block border ring falls back to the world map to
/// reach neighbouring chunks.
pub struct ChunkNeighborSampler<'a> {
    world: &'a World,
    origin: BlockPos,
    center: &'a ChunkStorage,
    pos: Ghost<ChunkPos>,
}

impl<'a> ChunkNeighborSampler<'a> {
    /// The world the sampler reads.
    pub closed spec fn world_spec(&self) -> &'a World {
        self.world
    }

    /// The chunk the sampler is centred on.
    pub closed spec fn pos_spec(&self) -> ChunkPos {
        self.pos@
    }

    /// A sampler for the loaded chunk at `pos`; `None` when it is not loaded.
    pub fn new(world: &'a World, pos: ChunkPos) -> (r: Option<Self>)
        requires
            world.wf(),
            ring_addressable(pos),
        ensures
            r is Some <==> world@.contains_key(key_of(pos)),
            r matches Some(s) ==> s.sampler_wf() && s.world_spec() == world && s.pos_spec() == pos,
    {
        let center = match world.get_chunk(pos) {
            Some(c) => &c.storage,
            None => {
                return None;
            },
        };
        proof {
            assert(world@.contains_key(key_of(pos)));
        }
        Some(ChunkNeighborSampler { world, origin: pos.origin(), center, pos: Ghost(pos) })
    }
}

proof fn lemma_world_of_chunk(pos: ChunkPos, x: int, y: int, z: int)
    requires
        ring_addressable(pos),
        0 <= x < 32,
        0 <= y < 32,
        0 <= z < 32,
    ensures
        chunk_coord(world_of(pos, x, y, z).x as int) == pos.x,
        chunk_coord(world_of(pos, x, y, z).y as int) == pos.y,
        chunk_coord(world_of(pos, x, y, z).z as int) == pos.z,
        local_coord(world_of(pos, x, y, z).x as int) == x,
        local_coord(world_of(pos, x, y, z).y as int) == y,
        local_coord(world_of(pos, x, y, z).z as int) == z,
{
    vstd::arithmetic::div_mod::lemma_fundamental_div_mod_converse(pos.x * 32 + x, 32, pos.x as int, x);
    vstd::arithmetic::div_mod::lemma_fundamental_div_mod_converse(pos.y * 32 + y, 32, pos.y as int, y);
    vstd::arithmetic::div_mod::lemma_fundamental_div_mod_converse(pos.z * 32 + z, 32, pos.z as int, z);
}

impl<'a> BlockSampler for ChunkNeighborSampler<'a> {
    closed spec fn sampler_wf(&self) -> bool {
        &&& self.world.wf()
        &&& ring_addressable(self.pos@)
        &&& self.world@.contains_key(key_of(self.pos@))
        &&& *self.center == self.world@[key_of(self.pos@)].storage
        &&& self.origin.x == self.pos@.x * 32
        &&& self.origin.y == self.pos@.y * 32
        &&& self.origin.z == self.pos@.z * 32
    }

    /// Exactly the world's block at the corresponding world position.
    closed spec fn sample(&self, x: int, y: int, z: int) -> BlockId {
        block_in(self.world@, world_of(self.pos@, x, y, z))
    }

    fn block_at(&self, x: i32, y: i32, z: i32) -> (r: BlockId) {
        if 0 <= x && x < 32 && 0 <= y && y < 32 && 0 <= z && z < 32 {
            proof {
                lemma_world_of_chunk(self.pos@, x as int, y as int, z as int);
                self.world.lemma_loaded_chunk(key_of(self.pos@));
            }
            self.center.get(LocalPos::new(x as u8, y as u8, z as u8))
        } else {
            self.world.block_at(BlockPos::new(self.origin.x + x, self.origin.y + y, self.origin.z + z))
        }
    }
}

impl<'a> ChunkNeighborSampler<'a> {
    /// What the sampler reports is the world's block at the chunk-local
    /// position taken relative to the sampled chunk.
    pub proof fn lemma_reads_world(&self, x: int, y: int, z: int)
        requires
            self.sampler_wf(),
        ensures
            self.sample(x, y, z) == block_in(self.world_spec()@, world_of(self.pos_spec(), x, y, z)),
    {
    }
}

/// Physics collision query backed by the world and block registry. A block
/// is solid iff its registry entry says so.
pub struct WorldSolid<'a> {
    pub world: &'a World,
    pub registry: &'a BlockRegistry,
}

impl<'a> WorldSolid<'a> {
    pub fn is_solid(&self, pos: BlockPos) -> (r: bool)
        requires
            self.world.wf(),
            self.registry@.len() > 0,
        ensures
            r == resolve(self.registry@, block_in(self.world@, pos)).solid,
    {
        self.registry.get(self.world.block_at(pos)).solid
    }
}

} // verus!
