use pixelcraft::block::{blocks, BlockId, BlockRegistry};
use pixelcraft::chunk::ChunkStorage;
use pixelcraft::collision::CollisionFlags;
use pixelcraft::coords::{BlockPos, ChunkPos};
use pixelcraft::entity::{EntityKind, Npc};
use pixelcraft::interaction::{mark_dirty_with_neighbours, mine_at, place_at, FaceNormal, Interaction, RayHit};
use pixelcraft::inventory::Inventory;
use pixelcraft::streaming::{
    dirty_chunks, in_load_range, missing_chunks, nearest_first, restore_chunk, unload_candidates, unload_chunk,
    StreamConfig, StreamStats,
};
use pixelcraft::textures::{assemble_atlas, Canvas};
use pixelcraft::world::World;

fn small_config(vd: i32) -> StreamConfig {
    StreamConfig {
        view_distance: vd,
        min_chunk_y: 0,
        max_chunk_y: 3,
        unload_margin: 1,
        max_uploads_per_update: 4096,
        max_meshes_per_update: 4096,
        max_jobs_per_update: 4096,
    }
}

#[test]
fn mine_then_place_roundtrip() {
    let reg = BlockRegistry::with_defaults();
    let mut world = World::new();
    world.insert_chunk(ChunkPos::new(0, 2, 0), ChunkStorage::empty());
    let p = BlockPos::new(8, 79, 8);
    world.set_block(p, blocks::DIRT());
    let mut inv = Inventory::new(reg.len());
    assert_eq!(mine_at(&mut world, &reg, &mut inv, p), Interaction::Mined(blocks::DIRT()));
    assert_eq!(world.block_at(p), BlockId::AIR());
    assert_eq!(inv.count(blocks::DIRT()), 1);
    inv.select(0);
    assert_eq!(place_at(&mut world, &mut inv, p, false), Interaction::Placed(blocks::DIRT()));
    assert_eq!(world.block_at(p), blocks::DIRT());
    assert_eq!(inv.count(blocks::DIRT()), 0);
}

#[test]
fn cannot_place_without_inventory() {
    let mut world = World::new();
    world.insert_chunk(ChunkPos::new(0, 2, 0), ChunkStorage::empty());
    let mut inv = Inventory::new(32);
    let p = BlockPos::new(8, 80, 8);
    assert_eq!(place_at(&mut world, &mut inv, p, false), Interaction::Nothing);
    assert_eq!(world.block_at(p), BlockId::AIR());
}

#[test]
fn mining_air_is_nothing() {
    let reg = BlockRegistry::with_defaults();
    let mut world = World::new();
    world.insert_chunk(ChunkPos::new(0, 3, 0), ChunkStorage::empty());
    let mut inv = Inventory::new(reg.len());
    assert_eq!(mine_at(&mut world, &reg, &mut inv, BlockPos::new(1, 120, 1)), Interaction::Nothing);
}

#[test]
fn placing_into_the_player_or_an_occupied_cell_is_refused() {
    let mut world = World::new();
    world.insert_chunk(ChunkPos::new(0, 0, 0), ChunkStorage::empty());
    let mut inv = Inventory::new(32);
    inv.add(blocks::DIRT(), 3);
    inv.select(0);
    let p = BlockPos::new(2, 2, 2);
    assert_eq!(place_at(&mut world, &mut inv, p, true), Interaction::Nothing);
    assert_eq!(inv.count(blocks::DIRT()), 3);
    world.set_block(p, blocks::STONE());
    assert_eq!(place_at(&mut world, &mut inv, p, false), Interaction::Nothing);
    assert_eq!(world.block_at(p), blocks::STONE());
}

#[test]
fn placing_into_an_unloaded_chunk_refunds() {
    let mut world = World::new();
    let mut inv = Inventory::new(32);
    inv.add(blocks::DIRT(), 1);
    inv.select(0);
    assert_eq!(place_at(&mut world, &mut inv, BlockPos::new(500, 5, 5), false), Interaction::Nothing);
    assert_eq!(inv.count(blocks::DIRT()), 1);
}

#[test]
fn place_pos_steps_out_of_the_hit_face() {
    let hit = RayHit { block: BlockPos::new(4, 10, -3), normal: FaceNormal { x: 0, y: 1, z: 0 } };
    assert_eq!(hit.place_pos(), BlockPos::new(4, 11, -3));
    let hit = RayHit { block: BlockPos::new(4, 10, -3), normal: FaceNormal { x: -1, y: 0, z: 0 } };
    assert_eq!(hit.place_pos(), BlockPos::new(3, 10, -3));
}

#[test]
fn load_range_is_a_disc_and_a_height_band() {
    let cfg = small_config(2);
    let c = ChunkPos::new(10, 0, 10);
    assert!(in_load_range(&cfg, ChunkPos::new(12, 0, 10), c));
    assert!(!in_load_range(&cfg, ChunkPos::new(12, 0, 11), c));
    assert!(in_load_range(&cfg, ChunkPos::new(11, 3, 11), c));
    assert!(!in_load_range(&cfg, ChunkPos::new(10, 4, 10), c));
    assert!(!in_load_range(&cfg, ChunkPos::new(10, -1, 10), c));
}

#[test]
fn missing_chunks_cover_the_view_once() {
    let cfg = small_config(2);
    let world = World::new();
    let wanted = missing_chunks(&cfg, ChunkPos::new(0, 0, 0), &world, &Vec::new());
    // 13 columns in a radius-2 disc, 4 layers each.
    assert_eq!(wanted.len(), 13 * 4);
    let mut world = World::new();
    world.insert_chunk(ChunkPos::new(0, 1, 0), ChunkStorage::empty());
    let inflight = vec![ChunkPos::new(1, 0, 0)];
    let wanted = missing_chunks(&cfg, ChunkPos::new(0, 0, 0), &world, &inflight);
    assert_eq!(wanted.len(), 13 * 4 - 2);
    assert!(!wanted.contains(&ChunkPos::new(0, 1, 0)));
    assert!(!wanted.contains(&ChunkPos::new(1, 0, 0)));
}

#[test]
fn nearest_first_is_a_stable_sort_by_distance() {
    let c = ChunkPos::new(0, 0, 0);
    let v = vec![
        ChunkPos::new(2, 0, 0),
        ChunkPos::new(0, 1, 0),
        ChunkPos::new(-1, 0, 0),
        ChunkPos::new(0, 0, 0),
        ChunkPos::new(0, 0, -2),
        ChunkPos::new(1, 1, 0),
    ];
    let r = nearest_first(&v, c);
    assert_eq!(
        r,
        vec![
            ChunkPos::new(0, 0, 0),
            ChunkPos::new(0, 1, 0),
            ChunkPos::new(-1, 0, 0),
            ChunkPos::new(1, 1, 0),
            ChunkPos::new(2, 0, 0),
            ChunkPos::new(0, 0, -2),
        ]
    );
    // Distances far beyond the `i32` range still order correctly.
    let far = vec![ChunkPos::new(i32::MIN, 0, 0), ChunkPos::new(i32::MAX, 0, 0), ChunkPos::new(5, 5, 5)];
    let r = nearest_first(&far, ChunkPos::new(i32::MAX, 0, 0));
    assert_eq!(r, vec![ChunkPos::new(i32::MAX, 0, 0), ChunkPos::new(5, 5, 5), ChunkPos::new(i32::MIN, 0, 0)]);
    assert!(nearest_first(&Vec::new(), c).is_empty());
}

#[test]
fn far_chunks_are_unloaded_and_dirty_ones_listed() {
    let cfg = small_config(2);
    let mut world = World::new();
    world.insert_chunk(ChunkPos::new(0, 0, 0), ChunkStorage::empty());
    world.insert_chunk(ChunkPos::new(3, 0, 0), ChunkStorage::empty());
    world.insert_chunk(ChunkPos::new(2, 0, 3), ChunkStorage::empty());
    let mut far = unload_candidates(&cfg, ChunkPos::new(0, 0, 0), &world);
    far.sort_by_key(|p| (p.x, p.z));
    assert_eq!(far, vec![ChunkPos::new(2, 0, 3)]);
    world.get_chunk_mut(ChunkPos::new(0, 0, 0)).unwrap().dirty = false;
    let mut dirty = dirty_chunks(&world);
    dirty.sort_by_key(|p| (p.x, p.z));
    assert_eq!(dirty, vec![ChunkPos::new(2, 0, 3), ChunkPos::new(3, 0, 0)]);
}

#[test]
fn neighbours_of_a_new_chunk_are_marked_dirty() {
    let mut world = World::new();
    for p in [ChunkPos::new(0, 0, 0), ChunkPos::new(1, 0, 0), ChunkPos::new(5, 0, 0)] {
        world.insert_chunk(p, ChunkStorage::empty());
        world.get_chunk_mut(p).unwrap().dirty = false;
    }
    mark_dirty_with_neighbours(&mut world, ChunkPos::new(0, 0, 0));
    assert!(world.get_chunk(ChunkPos::new(0, 0, 0)).unwrap().dirty);
    assert!(world.get_chunk(ChunkPos::new(1, 0, 0)).unwrap().dirty);
    assert!(!world.get_chunk(ChunkPos::new(5, 0, 0)).unwrap().dirty);
}

#[test]
fn stream_defaults() {
    let cfg = StreamConfig::default();
    assert_eq!(cfg.view_distance, 10);
    assert_eq!(cfg.max_chunk_y, 5);
    assert_eq!(cfg.max_jobs_per_update, 24);
    let s = StreamStats::default();
    assert_eq!((s.loaded_chunks, s.meshed_chunks, s.inflight, s.voxel_memory_bytes), (0, 0, 0, 0));
}

#[test]
fn collision_flags_summaries() {
    let mut f = CollisionFlags::default();
    assert!(!f.on_ground() && !f.hit_ceiling() && !f.hit_wall());
    f.neg_y = true;
    f.pos_z = true;
    assert!(f.on_ground());
    assert!(f.hit_wall());
    assert!(!f.hit_ceiling());
}

#[test]
fn friends_cycle_through_their_lines() {
    let mut n = Npc::friend(1);
    assert_eq!(n.name, "BISCUIT");
    let (name, line) = n.speak();
    assert_eq!(name, "BISCUIT");
    assert_eq!(line, "PURR... WELCOME TO THE VALLEY.");
    n.speak();
    n.speak();
    let (_, again) = n.speak();
    assert_eq!(again, "PURR... WELCOME TO THE VALLEY.");
    assert_ne!(EntityKind::Critter, EntityKind::Friend);
}

#[test]
fn atlas_packs_tiles_then_white() {
    let mut a = Canvas::new();
    a.set(1, 0, [10, 20, 30, 40]);
    let mut b = Canvas::new();
    b.clear_transparent();
    let atlas = assemble_atlas(&vec![a, b]);
    assert_eq!(atlas.layers, 3);
    assert_eq!(atlas.white_layer, 2);
    assert_eq!(atlas.data.len(), 3 * 1024);
    assert_eq!(&atlas.data[0..8], &[0, 0, 0, 255, 10, 20, 30, 40]);
    assert_eq!(&atlas.data[1024..1028], &[0, 0, 0, 0]);
    assert_eq!(&atlas.data[2048..2052], &[255, 255, 255, 255]);
}

#[test]
fn wanted_chunks_are_never_unloaded() {
    let cfg = small_config(3);
    let center = ChunkPos::new(4, 0, -2);
    let mut world = World::new();
    for p in missing_chunks(&cfg, center, &World::new(), &Vec::new()) {
        assert!(in_load_range(&cfg, p, center));
        world.insert_chunk(p, ChunkStorage::empty());
    }
    assert!(unload_candidates(&cfg, center, &world).is_empty());
    assert!(missing_chunks(&cfg, center, &world, &Vec::new()).is_empty());
}

#[test]
fn edited_chunks_survive_unload_and_reload() {
    let mut world = World::new();
    let mut edits = World::new();
    let pos = ChunkPos::new(2, 1, -1);
    world.insert_chunk(pos, ChunkStorage::empty());
    world.insert_chunk(ChunkPos::new(3, 1, -1), ChunkStorage::empty());
    let p = BlockPos::new(70, 40, -20);
    assert!(world.set_block(p, blocks::LANTERN()));
    // Unloading an edited chunk keeps it in the store; an untouched one is dropped.
    assert!(unload_chunk(&mut world, &mut edits, pos, true));
    assert!(unload_chunk(&mut world, &mut edits, ChunkPos::new(3, 1, -1), false));
    assert!(!unload_chunk(&mut world, &mut edits, ChunkPos::new(9, 9, 9), true));
    assert_eq!(world.chunk_count(), 0);
    assert_eq!(edits.chunk_count(), 1);
    assert_eq!(world.block_at(p), BlockId::AIR());
    // Streaming it back in restores the edit and marks it for remeshing.
    assert!(restore_chunk(&mut world, &mut edits, pos));
    assert_eq!(world.block_at(p), blocks::LANTERN());
    assert!(world.get_chunk(pos).unwrap().dirty);
    assert_eq!(edits.chunk_count(), 0);
    assert!(!restore_chunk(&mut world, &mut edits, ChunkPos::new(3, 1, -1)));
}

#[test]
fn listed_chunks_appear_once() {
    let cfg = small_config(1);
    let mut world = World::new();
    for x in -4..=4 {
        for z in -4..=4 {
            world.insert_chunk(ChunkPos::new(x, 0, z), ChunkStorage::empty());
        }
    }
    let far = unload_candidates(&cfg, ChunkPos::new(0, 0, 0), &world);
    let mut seen = far.clone();
    seen.sort_by_key(|p| (p.x, p.y, p.z));
    seen.dedup();
    assert_eq!(seen.len(), far.len());
    assert!(!far.is_empty());
    let dirty = dirty_chunks(&world);
    let mut seen = dirty.clone();
    seen.sort_by_key(|p| (p.x, p.y, p.z));
    seen.dedup();
    assert_eq!(seen.len(), dirty.len());
    assert_eq!(dirty.len(), 81);
}

#[test]
fn missing_chunks_at_the_edges_of_the_config() {
    let mut cfg = small_config(-1);
    assert!(missing_chunks(&cfg, ChunkPos::new(0, 0, 0), &World::new(), &Vec::new()).is_empty());
    cfg = small_config(0);
    cfg.min_chunk_y = i32::MAX - 1;
    cfg.max_chunk_y = i32::MAX;
    let wanted = missing_chunks(&cfg, ChunkPos::new(5, 0, 5), &World::new(), &Vec::new());
    assert_eq!(wanted, vec![ChunkPos::new(5, i32::MAX - 1, 5), ChunkPos::new(5, i32::MAX, 5)]);
    cfg = small_config(1001);
    cfg.min_chunk_y = 0;
    cfg.max_chunk_y = 0;
    let wanted = missing_chunks(&cfg, ChunkPos::new(0, 0, 0), &World::new(), &Vec::new());
    assert!(wanted.len() > 3_000_000);
}
