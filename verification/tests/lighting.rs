use pixelcraft::block::{blocks, BlockId, BlockRegistry};
use pixelcraft::chunk::ChunkStorage;
use pixelcraft::coords::{ChunkPos, LocalPos};
use pixelcraft::light::bake;
use pixelcraft::mesh::ChunkLight;
use pixelcraft::world::World;

fn world_light(world: &World, reg: &BlockRegistry, pos: ChunkPos) -> ChunkLight {
    bake(pos.origin(), world, reg)
}

#[test]
fn open_air_is_fully_sky_lit() {
    let reg = BlockRegistry::with_defaults();
    let mut world = World::new();
    world.insert_chunk(ChunkPos::new(0, 5, 0), ChunkStorage::empty());
    let light = world_light(&world, &reg, ChunkPos::new(0, 5, 0));
    let (sky, _blk) = light.get(5, 5, 5);
    assert_eq!(sky, 15, "open air should be fully sky-lit");
}

#[test]
fn under_solid_cover_is_dark() {
    let reg = BlockRegistry::with_defaults();
    let mut world = World::new();
    let mut storage = ChunkStorage::filled(blocks::STONE());
    storage.set(LocalPos::new(16, 16, 16), BlockId::AIR());
    world.insert_chunk(ChunkPos::new(0, 0, 0), storage);
    let light = world_light(&world, &reg, ChunkPos::new(0, 0, 0));
    let (sky, _blk) = light.get(16, 16, 16);
    assert_eq!(sky, 0, "a sealed pocket gets no sky light");
}

#[test]
fn lantern_emits_block_light_that_falls_off() {
    let reg = BlockRegistry::with_defaults();
    let mut world = World::new();
    let mut storage = ChunkStorage::empty();
    storage.set(LocalPos::new(16, 16, 16), blocks::LANTERN());
    world.insert_chunk(ChunkPos::new(0, 0, 0), storage);
    let light = world_light(&world, &reg, ChunkPos::new(0, 0, 0));
    let (_s1, near) = light.get(17, 16, 16);
    let (_s2, far) = light.get(20, 16, 16);
    assert!(near > 0, "air beside a lantern should be lit");
    assert!(near > far, "block light should fall off with distance");
}

#[test]
fn lantern_light_drops_one_level_per_step() {
    let reg = BlockRegistry::with_defaults();
    let mut world = World::new();
    let mut storage = ChunkStorage::filled(blocks::STONE());
    for x in 10..20u8 {
        storage.set(LocalPos::new(x, 16, 16), BlockId::AIR());
    }
    storage.set(LocalPos::new(10, 16, 16), blocks::LANTERN());
    world.insert_chunk(ChunkPos::new(0, 0, 0), storage);
    let light = world_light(&world, &reg, ChunkPos::new(0, 0, 0));
    // The lantern emits 14; each step along the sealed tunnel loses one.
    assert_eq!(light.get(10, 16, 16).1, 14);
    assert_eq!(light.get(11, 16, 16).1, 13);
    assert_eq!(light.get(15, 16, 16).1, 9);
    // Stone around the tunnel stays dark.
    assert_eq!(light.get(11, 17, 16).1, 0);
}

#[test]
fn sunlight_falls_down_a_shaft_without_fading() {
    let reg = BlockRegistry::with_defaults();
    let mut world = World::new();
    // A solid slab above the chunk with a one-block hole, and open air below.
    let mut roof = ChunkStorage::filled(blocks::STONE());
    roof.set(LocalPos::new(8, 0, 8), BlockId::AIR());
    for y in 0..32u8 {
        roof.set(LocalPos::new(8, y, 8), BlockId::AIR());
    }
    world.insert_chunk(ChunkPos::new(0, 1, 0), roof);
    world.insert_chunk(ChunkPos::new(0, 0, 0), ChunkStorage::empty());
    let light = world_light(&world, &reg, ChunkPos::new(0, 0, 0));
    // Straight below the shaft: full sky light; sideways it loses one level.
    assert_eq!(light.get(8, 20, 8).0, 15);
    assert_eq!(light.get(9, 20, 8).0, 14);
}

#[test]
fn baking_the_same_world_twice_gives_the_same_light() {
    let reg = BlockRegistry::with_defaults();
    let mut world = World::new();
    let mut storage = ChunkStorage::empty();
    for i in 0..32u8 {
        storage.set(LocalPos::new(i, 10, (i * 7) % 32), blocks::STONE());
        storage.set(LocalPos::new((i * 5) % 32, 20, i), blocks::LANTERN());
    }
    world.insert_chunk(ChunkPos::new(0, 1, 0), storage);
    let a = world_light(&world, &reg, ChunkPos::new(0, 1, 0));
    let b = world_light(&world, &reg, ChunkPos::new(0, 1, 0));
    for x in -1..=32 {
        for y in -1..=32 {
            for z in -1..=32 {
                assert_eq!(a.get(x, y, z), b.get(x, y, z));
            }
        }
    }
}
