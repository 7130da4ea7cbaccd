use pixelcraft::block::{blocks, BlockId, BlockRegistry};
use pixelcraft::chunk::ChunkStorage;
use pixelcraft::coords::{BlockPos, ChunkPos, LocalPos, CHUNK_VOLUME};

#[test]
fn defaults_match_well_known_ids() {
    let r = BlockRegistry::with_defaults();
    assert_eq!(r.get(blocks::AIR()).name, "air");
    assert_eq!(r.get(blocks::GRASS()).name, "grass");
    assert_eq!(r.get(blocks::WATER()).name, "water");
    assert_eq!(r.get(blocks::LANTERN()).name, "lantern");
    assert!(r.get(blocks::LANTERN()).light_emission > 0);
}

#[test]
fn air_is_not_solid_or_occluding() {
    let r = BlockRegistry::with_defaults();
    let air = r.get(BlockId::AIR());
    assert!(!air.solid);
    assert!(!air.occludes());
    assert!(!air.is_visible());
}

#[test]
fn leaves_are_visible_but_do_not_occlude() {
    let r = BlockRegistry::with_defaults();
    let leaves = r.get(blocks::LEAVES());
    assert!(leaves.is_visible());
    assert!(!leaves.occludes());
}

fn lp(i: usize) -> LocalPos {
    LocalPos::from_index(i)
}

#[test]
fn empty_chunk_is_uniform_air() {
    let c = ChunkStorage::empty();
    assert!(c.is_uniform());
    assert_eq!(c.uniform_block(), Some(BlockId::AIR()));
    assert_eq!(c.get_index(0), BlockId::AIR());
    assert_eq!(c.get_index(CHUNK_VOLUME - 1), BlockId::AIR());
    // Uniform chunks must not allocate per-voxel data.
    assert_eq!(c.bits_per_voxel(), 0);
}

#[test]
fn set_then_get_single_block() {
    let mut c = ChunkStorage::empty();
    c.set(lp(100), blocks::STONE());
    assert_eq!(c.get(lp(100)), blocks::STONE());
    assert_eq!(c.get(lp(101)), BlockId::AIR());
    assert!(!c.is_uniform());
}

#[test]
fn many_block_types_grow_bits_and_stay_correct() {
    let mut c = ChunkStorage::empty();
    // Write a different block id every few voxels, forcing palette growth.
    let ids = [
        blocks::GRASS(),
        blocks::DIRT(),
        blocks::STONE(),
        blocks::SAND(),
        blocks::WATER(),
        blocks::TRUNK(),
        blocks::LEAVES(),
        blocks::SNOW(),
        blocks::LANTERN(),
    ];
    for i in 0..CHUNK_VOLUME {
        c.set_index(i, ids[i % ids.len()]);
    }
    for i in 0..CHUNK_VOLUME {
        assert_eq!(c.get_index(i), ids[i % ids.len()], "mismatch at {i}");
    }
    assert!(c.bits_per_voxel() >= 4);
}

#[test]
fn overwrite_same_voxel_repeatedly() {
    let mut c = ChunkStorage::empty();
    let i = 12345 % CHUNK_VOLUME;
    c.set_index(i, blocks::STONE());
    c.set_index(i, blocks::DIRT());
    c.set_index(i, blocks::WATER());
    assert_eq!(c.get_index(i), blocks::WATER());
}

#[test]
fn shrink_collapses_back_to_uniform() {
    let mut c = ChunkStorage::empty();
    c.set_index(5, blocks::STONE());
    c.set_index(5, BlockId::AIR()); // undo
    c.shrink_palette();
    assert!(c.is_uniform());
    assert_eq!(c.uniform_block(), Some(BlockId::AIR()));
}

#[test]
fn shrink_compacts_unused_palette_entries() {
    let mut c = ChunkStorage::empty();
    // Introduce several types then erase all but one.
    c.set_index(0, blocks::GRASS());
    c.set_index(1, blocks::DIRT());
    c.set_index(2, blocks::STONE());
    c.set_index(1, blocks::GRASS());
    c.set_index(2, blocks::GRASS());
    let before = c.palette_len();
    c.shrink_palette();
    assert!(c.palette_len() <= before);
    assert_eq!(c.get_index(0), blocks::GRASS());
    assert_eq!(c.get_index(1), blocks::GRASS());
    assert_eq!(c.get_index(2), blocks::GRASS());
    assert_eq!(c.get_index(3), BlockId::AIR());
}

#[test]
fn serialization_roundtrips() {
    // Uniform chunk.
    let a = ChunkStorage::filled(blocks::STONE());
    let (a2, _) = ChunkStorage::from_bytes(&a.to_bytes()).unwrap();
    assert_eq!(a2.uniform_block(), Some(blocks::STONE()));

    // Mixed chunk.
    let mut b = ChunkStorage::empty();
    for i in 0..CHUNK_VOLUME {
        if i % 3 == 0 {
            b.set_index(i, blocks::DIRT());
        } else if i % 5 == 0 {
            b.set_index(i, blocks::WATER());
        }
    }
    let bytes = b.to_bytes();
    let (b2, consumed) = ChunkStorage::from_bytes(&bytes).unwrap();
    assert_eq!(consumed, bytes.len());
    for i in 0..CHUNK_VOLUME {
        assert_eq!(b.get_index(i), b2.get_index(i), "mismatch at {i}");
    }
}

#[test]
fn from_bytes_rejects_garbage() {
    assert!(ChunkStorage::from_bytes(&[0, 1, 2]).is_none());
}

#[test]
fn full_volume_checkerboard_roundtrips() {
    let mut c = ChunkStorage::empty();
    for i in 0..CHUNK_VOLUME {
        if i % 2 == 0 {
            c.set_index(i, blocks::STONE());
        }
    }
    for i in 0..CHUNK_VOLUME {
        let expect = if i % 2 == 0 {
            blocks::STONE()
        } else {
            BlockId::AIR()
        };
        assert_eq!(c.get_index(i), expect);
    }
}

#[test]
fn block_to_chunk_local_roundtrip() {
    for &(x, y, z) in &[
        (0, 0, 0),
        (31, 31, 31),
        (32, 0, 0),
        (-1, -1, -1),
        (-32, -33, 64),
        (1_000_000, -500_000, 12345),
    ] {
        let b = BlockPos::new(x, y, z);
        let c = b.chunk();
        let l = b.local();
        let rebuilt = l.to_block(c);
        assert_eq!(b, rebuilt, "roundtrip failed for {b:?}");
    }
}

#[test]
fn negative_coords_floor_correctly() {
    // -1 lives in chunk -1 at local index CHUNK_SIZE-1.
    let b = BlockPos::new(-1, -1, -1);
    assert_eq!(b.chunk(), ChunkPos::new(-1, -1, -1));
    assert_eq!(b.local(), LocalPos::new(31, 31, 31));
}

#[test]
fn local_index_roundtrip_full_volume() {
    for i in 0..CHUNK_VOLUME {
        assert_eq!(LocalPos::from_index(i).index(), i);
    }
}

#[test]
fn index_is_within_volume() {
    let l = LocalPos::new(31, 31, 31);
    assert_eq!(l.index(), CHUNK_VOLUME - 1);
}

fn header(bits: u32, palette: &[u16], data_len: u32) -> Vec<u8> {
    let mut b = Vec::new();
    b.extend_from_slice(&bits.to_le_bytes());
    b.extend_from_slice(&(palette.len() as u32).to_le_bytes());
    for id in palette {
        b.extend_from_slice(&id.to_le_bytes());
    }
    b.extend_from_slice(&data_len.to_le_bytes());
    b
}

#[test]
fn from_bytes_accepts_layout_only_valid_storage() {
    // Width 0 with two palette entries: the layout is fine, the invariant is not.
    let bytes = header(0, &[1, 2], 0);
    assert_eq!(bytes.len(), 16);
    let (s, n) = ChunkStorage::from_bytes(&bytes).unwrap();
    assert_eq!(n, 16);
    assert_eq!(s.palette_len(), 2);
    assert_eq!(s.bits_per_voxel(), 0);
    assert!(!s.is_well_formed());
}

#[test]
fn from_bytes_accepts_duplicates_and_full_width() {
    let mut dup = header(0, &[7, 7], 0);
    dup.extend_from_slice(&[9, 9, 9]);
    let (s, n) = ChunkStorage::from_bytes(&dup).unwrap();
    assert_eq!(n, 16);
    assert!(!s.is_well_formed());

    let mut wide = header(64, &[3], 32768);
    wide.extend(std::iter::repeat(0u8).take(8 * 32768));
    let (w, n) = ChunkStorage::from_bytes(&wide).unwrap();
    assert_eq!(n, 12 + 2 + 8 * 32768);
    assert_eq!(w.bits_per_voxel(), 64);
    assert!(!w.is_well_formed());
}

#[test]
fn from_bytes_refusals() {
    // Empty palette.
    assert!(ChunkStorage::from_bytes(&header(0, &[], 0)).is_none());
    // Data length other than the width needs (width 1 needs 512 words).
    assert!(ChunkStorage::from_bytes(&header(1, &[1, 2], 3)).is_none());
    // Truncated data.
    let mut short = header(1, &[1, 2], 512);
    short.extend(std::iter::repeat(0u8).take(8 * 511));
    assert!(ChunkStorage::from_bytes(&short).is_none());
    // Widths past 64 leave no whole entry in a word.
    assert!(ChunkStorage::from_bytes(&header(65, &[1], 0)).is_none());
}

#[test]
fn encoded_length_matches_layout() {
    let a = ChunkStorage::filled(blocks::STONE());
    assert_eq!(a.to_bytes().len(), 12 + 2);
    let mut b = ChunkStorage::empty();
    b.set_index(0, blocks::DIRT());
    b.set_index(1, blocks::STONE());
    // Three entries need width 2: 32 per word, 1024 words.
    assert_eq!(b.bits_per_voxel(), 2);
    assert_eq!(b.to_bytes().len(), 12 + 2 * 3 + 8 * 1024);
    let (b2, n) = ChunkStorage::from_bytes(&b.to_bytes()).unwrap();
    assert_eq!(n, 12 + 2 * 3 + 8 * 1024);
    assert!(b2.is_well_formed());
}

#[test]
fn built_storages_are_well_formed() {
    let mut c = ChunkStorage::empty();
    assert!(c.is_well_formed());
    for k in 0..5u16 {
        c.set_index(k as usize, BlockId(k + 1));
        assert!(c.is_well_formed());
    }
    c.shrink_palette();
    assert!(c.is_well_formed());
}

#[test]
fn width_stays_minimal_as_palette_grows() {
    let mut c = ChunkStorage::empty();
    let expect = [0u32, 1, 2, 2, 3, 3, 3, 3, 4];
    for (k, want) in expect.iter().enumerate().skip(1) {
        c.set_index(k, BlockId(k as u16 + 100));
        assert_eq!(c.palette_len(), k + 1);
        assert_eq!(c.bits_per_voxel(), *want);
    }
    // Writing the fill block of a uniform chunk changes nothing.
    let mut u = ChunkStorage::filled(blocks::STONE());
    u.set_index(9, blocks::STONE());
    assert!(u.is_uniform());
    assert_eq!(u.palette_len(), 1);
}

#[test]
fn shrink_leaves_distinct_blocks_and_is_idempotent() {
    let mut c = ChunkStorage::empty();
    c.set_index(0, blocks::GRASS());
    c.set_index(1, blocks::DIRT());
    c.set_index(2, blocks::STONE());
    c.set_index(3, blocks::WATER());
    c.set_index(1, blocks::GRASS());
    assert_eq!(c.palette_len(), 5);
    assert_eq!(c.bits_per_voxel(), 3);
    c.shrink_palette();
    // Air, grass, stone, water remain.
    assert_eq!(c.palette_len(), 4);
    assert_eq!(c.bits_per_voxel(), 2);
    let snapshot: Vec<BlockId> = (0..CHUNK_VOLUME).map(|i| c.get_index(i)).collect();
    c.shrink_palette();
    assert_eq!(c.palette_len(), 4);
    assert_eq!(c.bits_per_voxel(), 2);
    for i in 0..CHUNK_VOLUME {
        assert_eq!(c.get_index(i), snapshot[i]);
    }
}

#[test]
fn uniform_chunks_report_one_palette_entry_of_memory() {
    assert_eq!(ChunkStorage::filled(blocks::STONE()).memory_bytes(), 2);
    assert_eq!(ChunkStorage::empty().memory_bytes(), 2);
}

#[test]
fn decoded_storages_normalise_to_the_same_voxels() {
    // Width 0 with two entries reads as its first entry everywhere.
    let (s, _) = ChunkStorage::from_bytes(&header(0, &[1, 2], 0)).unwrap();
    assert!(s.is_readable());
    assert_eq!(s.get_index(77), BlockId(1));
    let n = s.normalized();
    assert!(n.is_well_formed());
    assert_eq!(n.uniform_block(), Some(BlockId(1)));

    // A duplicated palette entry, with voxel 1 set to entry 1.
    let mut b = header(2, &[5, 6, 5], 1024);
    let mut words = vec![0u64; 1024];
    words[0] = 1 << 2;
    for w in &words {
        b.extend_from_slice(&w.to_le_bytes());
    }
    let (s, _) = ChunkStorage::from_bytes(&b).unwrap();
    assert!(!s.is_well_formed());
    assert!(s.is_readable());
    assert_eq!(s.get_index(0), BlockId(5));
    assert_eq!(s.get_index(1), BlockId(6));
    let n = s.normalized();
    assert!(n.is_well_formed());
    assert_eq!(n.palette_len(), 2);
    assert_eq!(n.bits_per_voxel(), 1);
    for i in 0..CHUNK_VOLUME {
        assert_eq!(n.get_index(i), s.get_index(i));
    }

    // An index past the palette cannot be read.
    let mut bad = header(2, &[5, 6], 1024);
    let mut words = vec![0u64; 1024];
    words[3] = 3;
    for w in &words {
        bad.extend_from_slice(&w.to_le_bytes());
    }
    let (s, _) = ChunkStorage::from_bytes(&bad).unwrap();
    assert!(!s.is_readable());
    // Nor can a 64-bit width.
    let mut wide = header(64, &[3], 32768);
    wide.extend(std::iter::repeat(0u8).take(8 * 32768));
    let (w, _) = ChunkStorage::from_bytes(&wide).unwrap();
    assert!(!w.is_readable());
}
