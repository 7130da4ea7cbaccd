use pixelcraft::block::{blocks, BlockId};
use pixelcraft::chunk::ChunkStorage;
use pixelcraft::coords::{BlockPos, ChunkPos};
use pixelcraft::world::World;

#[test]
fn unloaded_regions_read_as_air() {
    let w = World::new();
    assert_eq!(w.block_at(BlockPos::new(5, 70, -3)), BlockId::AIR());
}

#[test]
fn set_block_requires_loaded_chunk() {
    let mut w = World::new();
    let p = BlockPos::new(1, 2, 3);
    assert!(!w.set_block(p, blocks::STONE()));
    w.insert_chunk(p.chunk(), ChunkStorage::empty());
    assert!(w.set_block(p, blocks::STONE()));
    assert_eq!(w.block_at(p), blocks::STONE());
}

#[test]
fn edit_marks_chunk_dirty() {
    let mut w = World::new();
    let p = BlockPos::new(8, 8, 8);
    w.insert_chunk(p.chunk(), ChunkStorage::empty());
    w.get_chunk_mut(p.chunk()).unwrap().dirty = false;
    w.set_block(p, blocks::DIRT());
    assert!(w.get_chunk(p.chunk()).unwrap().dirty);
}

#[test]
fn border_edit_dirties_neighbour() {
    let mut w = World::new();
    let center = ChunkPos::new(0, 0, 0);
    let neighbour = ChunkPos::new(-1, 0, 0);
    w.insert_chunk(center, ChunkStorage::empty());
    w.insert_chunk(neighbour, ChunkStorage::empty());
    w.get_chunk_mut(neighbour).unwrap().dirty = false;
    w.set_block(BlockPos::new(0, 4, 4), blocks::STONE());
    assert!(w.get_chunk(neighbour).unwrap().dirty);
}

#[test]
fn rewriting_the_same_block_leaves_chunk_clean() {
    let mut w = World::new();
    let p = BlockPos::new(0, 0, 0);
    w.insert_chunk(p.chunk(), ChunkStorage::empty());
    w.insert_chunk(ChunkPos::new(-1, 0, 0), ChunkStorage::empty());
    w.get_chunk_mut(p.chunk()).unwrap().dirty = false;
    w.get_chunk_mut(ChunkPos::new(-1, 0, 0)).unwrap().dirty = false;
    assert!(w.set_block(p, BlockId::AIR()));
    assert!(!w.get_chunk(p.chunk()).unwrap().dirty);
    assert!(!w.get_chunk(ChunkPos::new(-1, 0, 0)).unwrap().dirty);
}

#[test]
fn interior_edit_leaves_neighbours_clean() {
    let mut w = World::new();
    w.insert_chunk(ChunkPos::new(0, 0, 0), ChunkStorage::empty());
    w.insert_chunk(ChunkPos::new(1, 0, 0), ChunkStorage::empty());
    w.get_chunk_mut(ChunkPos::new(1, 0, 0)).unwrap().dirty = false;
    assert!(w.set_block(BlockPos::new(30, 4, 4), blocks::STONE()));
    assert!(!w.get_chunk(ChunkPos::new(1, 0, 0)).unwrap().dirty);
    assert!(w.set_block(BlockPos::new(31, 4, 4), blocks::STONE()));
    assert!(w.get_chunk(ChunkPos::new(1, 0, 0)).unwrap().dirty);
}

#[test]
fn negative_positions_land_in_negative_chunks() {
    let mut w = World::new();
    w.insert_chunk(ChunkPos::new(-1, -1, -1), ChunkStorage::empty());
    let p = BlockPos::new(-1, -1, -1);
    assert!(w.set_block(p, blocks::SAND()));
    assert_eq!(w.block_at(p), blocks::SAND());
    let c = w.get_chunk(ChunkPos::new(-1, -1, -1)).unwrap();
    assert_eq!(c.storage.get_index(32767), blocks::SAND());
}

#[test]
fn insert_count_and_remove() {
    let mut w = World::new();
    assert_eq!(w.chunk_count(), 0);
    w.insert_chunk(ChunkPos::new(0, 0, 0), ChunkStorage::empty());
    w.insert_chunk(ChunkPos::new(0, 1, 0), ChunkStorage::filled(blocks::STONE()));
    w.insert_chunk(ChunkPos::new(0, 1, 0), ChunkStorage::filled(blocks::DIRT()));
    assert_eq!(w.chunk_count(), 2);
    assert!(w.contains_chunk(ChunkPos::new(0, 1, 0)));
    assert_eq!(w.block_at(BlockPos::new(3, 40, 3)), blocks::DIRT());
    let removed = w.remove_chunk(ChunkPos::new(0, 1, 0)).unwrap();
    assert_eq!(removed.pos, ChunkPos::new(0, 1, 0));
    assert!(w.remove_chunk(ChunkPos::new(0, 1, 0)).is_none());
    assert_eq!(w.chunk_count(), 1);
    assert_eq!(w.block_at(BlockPos::new(3, 40, 3)), BlockId::AIR());
}

#[test]
fn iter_chunks_lists_each_loaded_chunk_once() {
    let mut w = World::new();
    for x in -2..3 {
        w.insert_chunk(ChunkPos::new(x, 0, 0), ChunkStorage::empty());
    }
    let listed = w.iter_chunks();
    assert_eq!(listed.len(), 5);
    let mut xs: Vec<i32> = listed.iter().map(|c| c.pos.x).collect();
    xs.sort();
    assert_eq!(xs, vec![-2, -1, 0, 1, 2]);
}

#[test]
fn voxel_memory_counts_every_chunk() {
    let mut w = World::new();
    assert_eq!(w.voxel_memory_bytes(), 0);
    w.insert_chunk(ChunkPos::new(0, 0, 0), ChunkStorage::empty());
    let one = w.voxel_memory_bytes();
    assert!(one >= 2);
    w.insert_chunk(ChunkPos::new(1, 0, 0), ChunkStorage::empty());
    assert!(w.voxel_memory_bytes() >= 2 * 2);
}

#[test]
fn uniform_chunks_count_one_palette_entry() {
    let mut w = World::new();
    w.insert_chunk(ChunkPos::new(0, 0, 0), ChunkStorage::filled(blocks::STONE()));
    assert_eq!(w.voxel_memory_bytes(), 2);
    w.insert_chunk(ChunkPos::new(1, 0, 0), ChunkStorage::empty());
    assert_eq!(w.voxel_memory_bytes(), 4);
}
