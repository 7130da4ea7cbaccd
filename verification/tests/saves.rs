use pixelcraft::block::blocks;
use pixelcraft::chunk::ChunkStorage;
use pixelcraft::coords::{ChunkPos, LocalPos};
use pixelcraft::persistence::{decode_save, encode_save, SaveState};

fn sample_state() -> SaveState {
    let mut storage = ChunkStorage::empty();
    storage.set(LocalPos::new(3, 4, 5), blocks::LANTERN());
    storage.set(LocalPos::new(31, 0, 9), blocks::PLANK());
    SaveState {
        seed: 2024,
        time_of_day_bits: 0.42f32.to_bits(),
        time_bits: 13.0f32.to_bits(),
        px_bits: 12.5f32.to_bits(),
        py_bits: 70.0f32.to_bits(),
        pz_bits: (-4.5f32).to_bits(),
        yaw_bits: 1.0f32.to_bits(),
        pitch_bits: (-0.25f32).to_bits(),
        selected: 3,
        counts: vec![0, 0, 0, 0, 0, 0, 0, 0, 0, 0, 0, 7],
        completed: 1,
        progress: 2,
        edits: vec![
            (ChunkPos::new(-1, 2, 3), storage),
            (ChunkPos::new(0, 0, 0), ChunkStorage::filled(blocks::STONE())),
        ],
    }
}

#[test]
fn save_load_roundtrip_preserves_state() {
    let st = sample_state();
    let blob = encode_save(&st);
    let back = decode_save(&blob).expect("load");
    assert_eq!(back.seed, 2024);
    assert!((f32::from_bits(back.px_bits) - 12.5).abs() < 1e-4);
    assert!((f32::from_bits(back.time_of_day_bits) - 0.42).abs() < 1e-5);
    assert_eq!(back.counts[11], 7);
    assert_eq!(back.selected, 3);
    assert_eq!((back.completed, back.progress), (1, 2));
    assert_eq!(back.edits.len(), 2);
    assert_eq!(back.edits[0].0, ChunkPos::new(-1, 2, 3));
    assert_eq!(back.edits[0].1.get(LocalPos::new(3, 4, 5)), blocks::LANTERN());
    assert_eq!(back.edits[0].1.get(LocalPos::new(31, 0, 9)), blocks::PLANK());
    assert_eq!(back.edits[1].1.get(LocalPos::new(7, 7, 7)), blocks::STONE());
}

#[test]
fn load_rejects_bad_data() {
    assert!(decode_save(b"nope").is_none());
    assert!(decode_save(&[]).is_none());
}

#[test]
fn truncated_saves_are_rejected() {
    let blob = encode_save(&sample_state());
    for cut in [4usize, 47, 60, blob.len() - 1] {
        assert!(decode_save(&blob[..cut]).is_none(), "cut at {cut}");
    }
}

#[test]
fn trailing_bytes_after_a_save_are_ignored() {
    let mut blob = encode_save(&sample_state());
    blob.extend_from_slice(&[9, 9, 9]);
    let back = decode_save(&blob).expect("load");
    assert_eq!(back.edits.len(), 2);
}

#[test]
fn header_layout_is_fixed() {
    let blob = encode_save(&sample_state());
    assert_eq!(&blob[0..4], b"PXC1");
    assert_eq!(u64::from_le_bytes(blob[4..12].try_into().unwrap()), 2024);
    assert_eq!(u32::from_le_bytes(blob[40..44].try_into().unwrap()), 3);
    assert_eq!(u32::from_le_bytes(blob[44..48].try_into().unwrap()), 12);
}

#[test]
fn corrupt_storage_bytes_are_rejected() {
    let mut st = sample_state();
    st.edits.truncate(1);
    let mut blob = encode_save(&st);
    // The storage's index width sits right after the edit's 16-byte header;
    // an absurd width has no valid storage.
    let n = st.counts.len();
    let at = 60 + 4 * n + 16;
    blob[at] = 200;
    assert!(decode_save(&blob).is_none());
}
