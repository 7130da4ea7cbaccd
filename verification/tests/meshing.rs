use pixelcraft::block::{blocks, BlockRegistry};
use pixelcraft::chunk::ChunkStorage;
use pixelcraft::coords::{LocalPos, CHUNK_SIZE, CHUNK_VOLUME};
use pixelcraft::mesh::{greedy_pass, mesh_chunk, mesh_chunk_lit, ChunkLight, IsolatedChunkSampler, Layer, MeshPlan, Quad};

fn mesh_storage(s: &ChunkStorage) -> MeshPlan {
    let reg = BlockRegistry::with_defaults();
    mesh_chunk(&IsolatedChunkSampler { storage: s }, &reg)
}

/// The four corner positions of a quad, in chunk-local block units.
fn corners(q: &Quad) -> [[i32; 3]; 4] {
    let d = q.axis;
    let u = (d + 1) % 3;
    let v = (d + 2) % 3;
    let mut base = [0i32; 3];
    base[d] = q.plane;
    base[u] = q.i;
    base[v] = q.j;
    let mut p1 = base;
    p1[u] += q.w;
    let mut p2 = p1;
    p2[v] += q.h;
    let mut p3 = base;
    p3[v] += q.h;
    [base, p1, p2, p3]
}

#[test]
fn empty_chunk_produces_no_geometry() {
    let s = ChunkStorage::empty();
    let m = mesh_storage(&s);
    assert!(m.is_empty());
}

#[test]
fn single_cube_has_six_quads() {
    let mut s = ChunkStorage::empty();
    s.set(LocalPos::new(5, 5, 5), blocks::STONE());
    let m = mesh_storage(&s);
    assert_eq!(m.opaque.quad_count(), 6, "a lone cube should expose 6 faces");
    assert_eq!(m.opaque.vertex_count(), 24);
    assert_eq!(m.opaque.index_count(), 36);
}

#[test]
fn flat_layer_merges_into_few_quads() {
    let mut s = ChunkStorage::empty();
    for z in 0..CHUNK_SIZE as u8 {
        for x in 0..CHUNK_SIZE as u8 {
            s.set(LocalPos::new(x, 0, z), blocks::STONE());
        }
    }
    let m = mesh_storage(&s);
    assert_eq!(m.opaque.quad_count(), 6);
}

#[test]
fn solid_chunk_only_meshes_outer_shell() {
    let s = ChunkStorage::filled(blocks::STONE());
    let m = mesh_storage(&s);
    assert_eq!(m.opaque.quad_count(), 6);
}

#[test]
fn interior_faces_between_same_block_are_culled() {
    let mut s = ChunkStorage::empty();
    s.set(LocalPos::new(5, 5, 5), blocks::STONE());
    s.set(LocalPos::new(6, 5, 5), blocks::STONE());
    let m = mesh_storage(&s);
    assert_eq!(m.opaque.quad_count(), 6);
}

#[test]
fn water_goes_to_transparent_layer() {
    let mut s = ChunkStorage::empty();
    s.set(LocalPos::new(8, 8, 8), blocks::WATER());
    let m = mesh_storage(&s);
    assert!(m.opaque.is_empty(), "water must not be in the opaque layer");
    assert_eq!(m.transparent.quad_count(), 6);
}

#[test]
fn opaque_neighbour_culls_transparent_face() {
    let mut s = ChunkStorage::empty();
    s.set(LocalPos::new(8, 8, 8), blocks::WATER());
    s.set(LocalPos::new(9, 8, 8), blocks::STONE());
    let m = mesh_storage(&s);
    assert_eq!(m.transparent.quad_count(), 5, "hidden water face not culled");
    assert_eq!(m.opaque.quad_count(), 6);
}

#[test]
fn ambient_occlusion_darkens_inner_corners() {
    let mut s = ChunkStorage::empty();
    s.set(LocalPos::new(5, 5, 5), blocks::STONE());
    s.set(LocalPos::new(5, 6, 6), blocks::STONE());
    s.set(LocalPos::new(6, 6, 5), blocks::STONE());
    let m = mesh_storage(&s);

    // Luminance of each corner of the target block's top face: face shade of
    // the +Y face (1.0) times the AO factor 0.5 + 0.5 * level / 3.
    let factor = |level: u8| 1.0f32 * (0.5 + 0.5 * (level as f32 / 3.0));
    let mut greens: Vec<f32> = Vec::new();
    for q in m.opaque.quads.iter() {
        if q.axis == 1 && q.key.positive && q.plane == 6 {
            let ao = q.key.ao;
            greens.push(factor(ao.c0));
            greens.push(factor(ao.c1));
            greens.push(factor(ao.c2));
            greens.push(factor(ao.c3));
        }
    }
    assert!(greens.len() >= 4, "expected a top face quad, got {}", greens.len());
    let min = greens.iter().cloned().fold(f32::INFINITY, f32::min);
    let max = greens.iter().cloned().fold(f32::NEG_INFINITY, f32::max);
    assert!(
        (min / max - 0.5).abs() < 0.05,
        "AO not applied as expected: min {min}, max {max}"
    );
}

#[test]
fn cross_plants_make_two_quads_and_no_cube() {
    let mut s = ChunkStorage::empty();
    s.set(LocalPos::new(8, 8, 8), blocks::FLOWER_PINK());
    let m = mesh_storage(&s);
    assert!(m.opaque.is_empty());
    assert_eq!(m.transparent.quad_count(), 2);
}

#[test]
fn cross_plant_does_not_cull_block_below() {
    let mut s = ChunkStorage::empty();
    s.set(LocalPos::new(8, 8, 8), blocks::GRASS());
    s.set(LocalPos::new(8, 9, 8), blocks::TALL_GRASS());
    let m = mesh_storage(&s);
    assert_eq!(m.opaque.quad_count(), 6);
    assert_eq!(m.transparent.quad_count(), 2);
}

#[test]
fn all_quad_vertices_are_within_padded_bounds() {
    let mut s = ChunkStorage::empty();
    for i in (0..CHUNK_VOLUME).step_by(7) {
        s.set_index(i, blocks::DIRT());
    }
    let m = mesh_storage(&s);
    for q in m.opaque.quads.iter() {
        for c in corners(q) {
            for v in c {
                assert!((0..=CHUNK_SIZE as i32).contains(&v), "vertex out of bounds: {v}");
            }
        }
    }
}

#[test]
fn each_face_of_a_lone_cube_is_one_unit_quad() {
    let mut s = ChunkStorage::empty();
    s.set(LocalPos::new(3, 4, 5), blocks::STONE());
    let m = mesh_storage(&s);
    let mut planes: Vec<(usize, i32, bool)> = Vec::new();
    for q in m.opaque.quads.iter() {
        assert_eq!((q.w, q.h), (1, 1));
        assert_eq!(q.key.block, blocks::STONE());
        planes.push((q.axis, q.plane, q.key.positive));
    }
    planes.sort();
    assert_eq!(
        planes,
        vec![
            (0, 3, false),
            (0, 4, true),
            (1, 4, false),
            (1, 5, true),
            (2, 5, false),
            (2, 6, true)
        ]
    );
}

#[test]
fn greedy_rectangle_takes_whole_rows_first() {
    // An L-shaped patch of stone on the floor. Seen from above (u = z,
    // v = x), the first mask row (x = 0) holds two cells, so the sweep takes
    // a 2×1 rectangle there, then a 1×2 rectangle for x = 1 and x = 2.
    let mut s = ChunkStorage::empty();
    for p in [(0u8, 0u8, 0u8), (1, 0, 0), (2, 0, 0), (0, 0, 1)] {
        s.set(LocalPos::new(p.0, p.1, p.2), blocks::STONE());
    }
    let m = mesh_storage(&s);
    let mut tops: Vec<(i32, i32, i32, i32)> = m
        .opaque
        .quads
        .iter()
        .filter(|q| q.axis == 1 && q.plane == 1)
        .map(|q| (q.i, q.j, q.w, q.h))
        .collect();
    tops.sort();
    assert_eq!(tops, vec![(0, 0, 2, 1), (0, 1, 1, 2)]);
}

#[test]
fn baked_light_is_carried_into_face_corners() {
    let mut s = ChunkStorage::empty();
    s.set(LocalPos::new(10, 10, 10), blocks::STONE());
    let reg = BlockRegistry::with_defaults();
    let mut light = ChunkLight::dark();
    for x in -1..=32 {
        for z in -1..=32 {
            light.set(x, 11, z, 8, 4);
        }
    }
    let m = mesh_chunk_lit(&IsolatedChunkSampler { storage: &s }, &reg, &light);
    let top = m
        .opaque
        .quads
        .iter()
        .find(|q| q.axis == 1 && q.plane == 11 && q.key.positive)
        .expect("top face");
    for c in [top.key.light.l0, top.key.light.l1, top.key.light.l2, top.key.light.l3] {
        assert_eq!((c.sky, c.block), (8, 4));
    }
    let bottom = m
        .opaque
        .quads
        .iter()
        .find(|q| q.axis == 1 && q.plane == 10 && !q.key.positive)
        .expect("bottom face");
    assert_eq!((bottom.key.light.l0.sky, bottom.key.light.l0.block), (0, 0));
}

#[test]
fn light_grid_reads_full_sky_outside_its_range() {
    let mut l = ChunkLight::dark();
    assert_eq!(l.get(0, 0, 0), (0, 0));
    assert_eq!(l.get(33, 0, 0), (15, 0));
    l.set(32, -1, 7, 3, 9);
    assert_eq!(l.get(32, -1, 7), (3, 9));
    l.set(40, 0, 0, 1, 1);
    assert_eq!(l.get(40, 0, 0), (15, 0));
    assert_eq!(ChunkLight::full_bright().get(5, 5, 5), (15, 0));
}

#[test]
fn faces_are_covered_exactly_once_and_meshing_is_repeatable() {
    // An L-shaped stone slab with a sand strip: every exposed top face must
    // lie in exactly one quad, and meshing again gives the same quads.
    let mut s = ChunkStorage::empty();
    for x in 0..12u8 {
        for z in 0..12u8 {
            if x < 4 || z < 4 {
                let b = if x == 2 { blocks::SAND() } else { blocks::STONE() };
                s.set(LocalPos::new(x, 8, z), b);
            }
        }
    }
    let a = mesh_storage(&s);
    let b = mesh_storage(&s);
    assert_eq!(a.opaque.quads, b.opaque.quads);
    let tops: Vec<&Quad> = a.opaque.quads.iter().filter(|q| q.axis == 1 && q.plane == 9 && q.key.positive).collect();
    for x in 0..12 {
        for z in 0..12 {
            // For axis 1, u is z and v is x.
            let n = tops.iter().filter(|q| q.i <= z && z < q.i + q.w && q.j <= x && x < q.j + q.h).count();
            let solid = x < 4 || z < 4;
            assert_eq!(n, if solid { 1 } else { 0 }, "top face at x={x} z={z}");
        }
    }
}

#[test]
fn greedy_pass_emits_sections_in_axis_then_plane_order() {
    let reg = BlockRegistry::with_defaults();
    let mut s = ChunkStorage::empty();
    s.set(LocalPos::new(3, 4, 5), blocks::STONE());
    s.set(LocalPos::new(20, 9, 11), blocks::DIRT());
    s.set(LocalPos::new(20, 10, 11), blocks::DIRT());
    let quads = greedy_pass(&IsolatedChunkSampler { storage: &s }, &reg, &ChunkLight::full_bright(), Layer::Opaque);
    assert!(quads.len() >= 12);
    for w in quads.windows(2) {
        assert!((w[0].axis, w[0].plane) <= (w[1].axis, w[1].plane));
    }
}
