use pixelcraft::block::{blocks, BlockId, BlockRegistry};
use pixelcraft::chunk::ChunkStorage;
use pixelcraft::coords::{BlockPos, ChunkPos, LocalPos};
use pixelcraft::mesh::{mesh_chunk, BlockSampler};
use pixelcraft::sampler::{ChunkNeighborSampler, WorldSolid};
use pixelcraft::world::World;

#[test]
fn sampler_reads_neighbour_across_border() {
    let mut world = World::new();
    world.insert_chunk(ChunkPos::new(0, 0, 0), ChunkStorage::empty());
    let mut neigh = ChunkStorage::empty();
    neigh.set(LocalPos::new(31, 4, 4), blocks::STONE());
    world.insert_chunk(ChunkPos::new(-1, 0, 0), neigh);

    let s = ChunkNeighborSampler::new(&world, ChunkPos::new(0, 0, 0)).unwrap();
    assert_eq!(s.block_at(-1, 4, 4), blocks::STONE());
    assert_eq!(s.block_at(0, 4, 4), BlockId::AIR());
}

#[test]
fn solid_query_respects_registry() {
    let reg = BlockRegistry::with_defaults();
    let mut world = World::new();
    world.insert_chunk(ChunkPos::new(0, 0, 0), ChunkStorage::empty());
    world.set_block(BlockPos::new(1, 1, 1), blocks::STONE());
    world.set_block(BlockPos::new(2, 1, 1), blocks::WATER());
    let q = WorldSolid { world: &world, registry: &reg };
    assert!(q.is_solid(BlockPos::new(1, 1, 1)));
    assert!(!q.is_solid(BlockPos::new(2, 1, 1)));
    assert!(!q.is_solid(BlockPos::new(5, 5, 5)));
}

#[test]
fn sampler_needs_a_loaded_chunk() {
    let world = World::new();
    assert!(ChunkNeighborSampler::new(&world, ChunkPos::new(3, 0, 0)).is_none());
}

#[test]
fn neighbour_solid_culls_the_border_face() {
    let reg = BlockRegistry::with_defaults();
    let mut world = World::new();
    let mut center = ChunkStorage::empty();
    center.set(LocalPos::new(0, 4, 4), blocks::STONE());
    world.insert_chunk(ChunkPos::new(0, 0, 0), center);
    let mut neigh = ChunkStorage::empty();
    neigh.set(LocalPos::new(31, 4, 4), blocks::STONE());
    world.insert_chunk(ChunkPos::new(-1, 0, 0), neigh);
    let s = ChunkNeighborSampler::new(&world, ChunkPos::new(0, 0, 0)).unwrap();
    let m = mesh_chunk(&s, &reg);
    // The -X face touches the neighbour's stone and is hidden; the other five
    // faces of the block stay.
    assert_eq!(m.opaque.quad_count(), 5);
}
