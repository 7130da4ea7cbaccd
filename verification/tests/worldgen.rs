use pixelcraft::biome::Biome;
use pixelcraft::block::{blocks, BlockId};
use pixelcraft::coords::{ChunkPos, LocalPos, CHUNK_VOLUME};
use pixelcraft::generator::{
    chunk_in_range, column_growth, cottage_site, plan_fits, site_admits, terrain_block, ColumnPlan, Growth, SitePlan, TerrainPlan,
    WorldGenerator,
};
use pixelcraft::noise::{hash_coords, Perlin, SplitMix64};

fn sites_for(pos: ChunkPos, site: SitePlan) -> Vec<SitePlan> {
    let ox = pos.x * 32;
    let oz = pos.z * 32;
    let nx = (ox + 31).div_euclid(80) - (ox - 8).div_euclid(80) + 1;
    let nz = (oz + 31).div_euclid(80) - (oz - 8).div_euclid(80) + 1;
    vec![site; (nx * nz) as usize]
}

fn flat_plan(pos: ChunkPos, surface: i32, biome: Biome, growth: Growth) -> TerrainPlan {
    let col = ColumnPlan { surface, biome, growth };
    let no_site = SitePlan { accepted: false, biome, h00: surface, h40: surface, h04: surface, h44: surface };
    TerrainPlan { window: vec![col; 38 * 38], flags: vec![0; CHUNK_VOLUME], sites: sites_for(pos, no_site) }
}

#[test]
fn generation_is_deterministic() {
    let g = WorldGenerator::new(123);
    let pos = ChunkPos::new(2, 2, -3);
    let plan = flat_plan(pos, 70, Biome::Forest, Growth::Tree);
    let a = g.generate_chunk(pos, &plan);
    let b = g.generate_chunk(pos, &plan);
    for i in 0..CHUNK_VOLUME {
        assert_eq!(a.get_index(i), b.get_index(i));
    }
}

#[test]
fn deep_underground_is_solid_stone_chunk_region() {
    let g = WorldGenerator::new(99);
    let pos = ChunkPos::new(0, 0, 0);
    let c = g.generate_chunk(pos, &flat_plan(pos, 70, Biome::Meadow, Growth::Nothing));
    let mut solid = 0;
    for i in 0..CHUNK_VOLUME {
        if !c.get_index(i).is_air() {
            solid += 1;
        }
    }
    assert!(solid > CHUNK_VOLUME * 3 / 4, "expected mostly solid deep chunk, got {solid}");
}

#[test]
fn high_sky_chunk_is_pure_air() {
    let g = WorldGenerator::new(5);
    let pos = ChunkPos::new(0, 10, 0);
    let c = g.generate_chunk(pos, &flat_plan(pos, 70, Biome::Meadow, Growth::Tree));
    assert!(c.is_uniform());
    assert_eq!(c.uniform_block(), Some(BlockId::AIR()));
}

#[test]
fn ores_appear_underground() {
    let g = WorldGenerator::new(99);
    let pos = ChunkPos::new(0, 0, 0);
    let mut plan = flat_plan(pos, 70, Biome::Meadow, Growth::Nothing);
    plan.flags[LocalPos::new(3, 10, 3).index()] = 2;
    plan.flags[LocalPos::new(4, 28, 3).index()] = 4;
    plan.flags[LocalPos::new(5, 28, 3).index()] = 2;
    let c = g.generate_chunk(pos, &plan);
    assert_eq!(c.get(LocalPos::new(3, 10, 3)), blocks::CRYSTAL());
    assert_eq!(c.get(LocalPos::new(4, 28, 3)), blocks::COAL_ORE());
    // Crystals only form below height 26.
    assert_eq!(c.get(LocalPos::new(5, 28, 3)), blocks::STONE());
}

#[test]
fn terrain_layers_follow_the_biome() {
    assert_eq!(terrain_block(70, 70, Biome::Meadow, 0), blocks::GRASS());
    assert_eq!(terrain_block(68, 70, Biome::Meadow, 0), blocks::DIRT());
    assert_eq!(terrain_block(66, 70, Biome::Meadow, 0), blocks::STONE());
    assert_eq!(terrain_block(70, 70, Biome::SnowyPeaks, 0), blocks::SNOW());
    assert_eq!(terrain_block(69, 70, Biome::SnowyPeaks, 0), blocks::STONE());
    assert_eq!(terrain_block(70, 70, Biome::Dunes, 0), blocks::SAND());
    assert_eq!(terrain_block(71, 70, Biome::Meadow, 0), BlockId::AIR());
    // Underwater surfaces are dirt, with water above up to sea level.
    assert_eq!(terrain_block(50, 50, Biome::Meadow, 0), blocks::DIRT());
    assert_eq!(terrain_block(62, 50, Biome::Meadow, 0), blocks::WATER());
    assert_eq!(terrain_block(63, 50, Biome::Meadow, 0), BlockId::AIR());
    // Caves: flooded below sea level, open above, never below height 5.
    assert_eq!(terrain_block(40, 70, Biome::Meadow, 1), blocks::WATER());
    assert_eq!(terrain_block(65, 70, Biome::Meadow, 1), BlockId::AIR());
    assert_eq!(terrain_block(4, 70, Biome::Meadow, 1), blocks::STONE());
}

#[test]
fn trees_grow_on_land_columns() {
    let g = WorldGenerator::new(2024);
    let pos = ChunkPos::new(0, 2, 0);
    let c = g.generate_chunk(pos, &flat_plan(pos, 70, Biome::Forest, Growth::Tree));
    let mut trunks = 0;
    let mut leaves = 0;
    for i in 0..CHUNK_VOLUME {
        let id = c.get_index(i);
        if id == blocks::TRUNK() {
            trunks += 1;
        }
        if id == blocks::LEAVES() {
            leaves += 1;
        }
    }
    assert!(trunks > 0 && leaves > 0, "no trees generated");
    // Nothing grows under water.
    let wet = g.generate_chunk(pos, &flat_plan(pos, 55, Biome::Forest, Growth::Tree));
    for i in 0..CHUNK_VOLUME {
        assert_ne!(wet.get_index(i), blocks::TRUNK());
    }
}

#[test]
fn flora_sits_on_the_surface() {
    let g = WorldGenerator::new(77);
    let pos = ChunkPos::new(0, 2, 0);
    let c = g.generate_chunk(pos, &flat_plan(pos, 70, Biome::Dunes, Growth::Flora));
    // Dunes grow pumpkins, one block above the sand surface (world y 71 is
    // local y 7 in the chunk starting at y 64).
    assert_eq!(c.get(LocalPos::new(10, 7, 10)), blocks::PUMPKIN());
    assert_eq!(c.get(LocalPos::new(10, 6, 10)), blocks::SAND());
}

#[test]
fn cottages_generate_on_flat_land() {
    let seed = 3_400_000_000u64;
    let g = WorldGenerator::new(seed);
    let pos = ChunkPos::new(0, 2, 0);
    let flat = SitePlan { accepted: true, biome: Biome::Meadow, h00: 66, h40: 66, h04: 67, h44: 66 };
    let mut plan = flat_plan(pos, 66, Biome::Meadow, Growth::Nothing);
    plan.sites = sites_for(pos, flat);
    let c = g.generate_chunk(pos, &plan);
    let (_roll, bx, bz) = cottage_site(seed, 0, 0);
    let mut roof = 0;
    let mut lantern = 0;
    for i in 0..CHUNK_VOLUME {
        let id = c.get_index(i);
        if id == blocks::ROOF() {
            roof += 1;
        }
        if id == blocks::LANTERN() {
            lantern += 1;
        }
    }
    if bx + 4 < 32 && bz + 4 < 32 {
        // The whole cottage of region (0, 0) lies in this chunk.
        assert!(roof >= 25 + 9);
        assert!(lantern >= 1);
        let lp = LocalPos::new((bx + 2) as u8, (66 + 1 - 64) as u8, (bz + 2) as u8);
        assert_eq!(c.get(lp), blocks::LANTERN());
    } else {
        assert!(roof > 0 || lantern > 0 || bx >= 32 || bz >= 32);
    }
    // An uneven site builds nothing.
    let steep = SitePlan { accepted: true, biome: Biome::Meadow, h00: 66, h40: 69, h04: 66, h44: 66 };
    plan.sites = sites_for(pos, steep);
    let c = g.generate_chunk(pos, &plan);
    for i in 0..CHUNK_VOLUME {
        assert_ne!(c.get_index(i), blocks::ROOF());
    }
}

#[test]
fn structures_are_deterministic_across_chunk_borders() {
    let g = WorldGenerator::new(3_400_000_000);
    let pos = ChunkPos::new(0, 2, 0);
    let mut plan = flat_plan(pos, 66, Biome::Forest, Growth::Flora);
    plan.sites = sites_for(pos, SitePlan { accepted: true, biome: Biome::Forest, h00: 66, h40: 66, h04: 66, h44: 66 });
    let a = g.generate_chunk(pos, &plan);
    let b = g.generate_chunk(pos, &plan);
    for i in 0..CHUNK_VOLUME {
        assert_eq!(a.get_index(i), b.get_index(i));
    }
}

#[test]
fn splitmix_matches_reference_values() {
    // SplitMix64 seeded with 0 produces this well-known stream.
    let mut r = SplitMix64::new(0);
    assert_eq!(r.next_u64(), 0xE220A8397B1DCDAF);
    assert_eq!(r.next_u64(), 0x6E789E6AA1B965F4);
    assert_eq!(r.next_u64(), 0x06C45D188009454F);
}

#[test]
fn hash_coords_is_deterministic_and_position_dependent() {
    assert_eq!(hash_coords(7, 3, -4), hash_coords(7, 3, -4));
    assert_ne!(hash_coords(7, 3, -4), hash_coords(7, -4, 3));
    assert_ne!(hash_coords(7, 3, -4), hash_coords(8, 3, -4));
}

#[test]
fn permutation_table_is_a_doubled_permutation() {
    let p = Perlin::new(42);
    assert_eq!(p.table_len(), 512);
    let mut seen = [false; 256];
    for i in 0..256 {
        let v = p.perm_at(i) as usize;
        assert!(!seen[v]);
        seen[v] = true;
        assert_eq!(p.perm_at(i), p.perm_at(i + 256));
    }
    let q = Perlin::new(42);
    let r = Perlin::new(43);
    let same: Vec<u8> = (0..512).map(|i| q.perm_at(i)).collect();
    let orig: Vec<u8> = (0..512).map(|i| p.perm_at(i)).collect();
    let other: Vec<u8> = (0..512).map(|i| r.perm_at(i)).collect();
    assert_eq!(same, orig);
    assert_ne!(other, orig);
}

#[test]
fn generator_keeps_its_seed() {
    let g = WorldGenerator::new(12345);
    assert_eq!(g.seed(), 12345);
    assert_eq!(g.height_noise().perm_at(7), Perlin::new(12345).perm_at(7));
    assert_eq!(g.cave_noise().perm_at(7), Perlin::new(12345 ^ 0xDEAD_BEEF).perm_at(7));
}

fn unit(draw: u64) -> f32 {
    (draw >> 40) as f32 / (1u32 << 24) as f32
}

#[test]
fn growth_rolls_follow_the_biome_densities() {
    let biomes: [(Biome, f32, f32); 5] = [
        (Biome::Meadow, 0.012, 0.06),
        (Biome::Forest, 0.085, 0.05),
        (Biome::Beach, 0.0, 0.004),
        (Biome::SnowyPeaks, 0.02, 0.0),
        (Biome::Dunes, 0.0, 0.012),
    ];
    let mut trees = 0;
    let mut flora = 0;
    for (biome, tree, fl) in biomes {
        for wx in -60..60 {
            for wz in -60..60 {
                let mut rng = SplitMix64::new(hash_coords(2024 ^ 0x5EED, wx, wz));
                let roll = unit(rng.next_u64());
                let expect = if roll < tree {
                    Growth::Tree
                } else if roll < tree + fl {
                    Growth::Flora
                } else {
                    Growth::Nothing
                };
                let got = column_growth(2024, wx, wz, biome);
                assert_eq!(got, expect, "{biome:?} at ({wx}, {wz})");
                trees += (got == Growth::Tree) as u32;
                flora += (got == Growth::Flora) as u32;
            }
        }
    }
    assert!(trees > 0 && flora > 0);
}

#[test]
fn site_admission_is_the_fraction_cap() {
    for (draw, ok) in [(0u64, true), (9227469u64 << 40, true), ((9227469u64 << 40) | 0xFF_FFFF_FFFF, true), (9227470u64 << 40, false), (u64::MAX, false)] {
        assert_eq!(site_admits(draw), ok);
        assert_eq!(site_admits(draw), !(unit(draw) > 0.55));
    }
    for rx in -20..20 {
        for rz in -20..20 {
            let (draw, _, _) = cottage_site(77, rx, rz);
            assert_eq!(site_admits(draw), !(unit(draw) > 0.55));
        }
    }
}

/// A plan for the chunk at `pos` sampled from one world-wide column function.
fn world_plan(pos: ChunkPos, cols: impl Fn(i32, i32) -> ColumnPlan) -> TerrainPlan {
    let (ox, oz) = (pos.x * 32, pos.z * 32);
    let mut window = Vec::new();
    for j in 0..38 * 38 {
        window.push(cols(ox + j % 38 - 3, oz + j / 38 - 3));
    }
    let no_site = SitePlan { accepted: false, biome: Biome::Meadow, h00: 70, h40: 70, h04: 70, h44: 70 };
    TerrainPlan { window, flags: vec![0; CHUNK_VOLUME], sites: sites_for(pos, no_site) }
}

#[test]
fn trees_straddling_a_border_are_whole() {
    // One tree on world column (31, 5), the last column of chunk x = 0: its
    // canopy spills into chunk x = 1 exactly as it reaches back into chunk 0.
    let cols = |x: i32, z: i32| ColumnPlan {
        surface: 70,
        biome: Biome::Meadow,
        growth: if (x, z) == (31, 5) { Growth::Tree } else { Growth::Nothing },
    };
    let g = WorldGenerator::new(2024);
    let a = g.generate_chunk(ChunkPos::new(0, 2, 0), &world_plan(ChunkPos::new(0, 2, 0), cols));
    let b = g.generate_chunk(ChunkPos::new(1, 2, 0), &world_plan(ChunkPos::new(1, 2, 0), cols));
    let leaves_at = |c: &pixelcraft::chunk::ChunkStorage, lx: u8| {
        let mut n = 0;
        for y in 0..32u8 {
            for z in 0..32u8 {
                if c.get(LocalPos::new(lx, y, z)) == blocks::LEAVES() {
                    n += 1;
                }
            }
        }
        n
    };
    // World x 29 / 33 are two columns either side of the trunk; 30 / 32 one.
    assert!(leaves_at(&a, 29) > 0);
    assert_eq!(leaves_at(&a, 29), leaves_at(&b, 1));
    assert_eq!(leaves_at(&a, 30), leaves_at(&b, 0));
    assert!(leaves_at(&b, 2) == 0);
    assert_eq!(a.get(LocalPos::new(31, 7, 5)), blocks::TRUNK());
}

#[test]
fn chunk_range_reaches_far_out() {
    assert!(chunk_in_range(ChunkPos::new(0, 0, 0)));
    assert!(chunk_in_range(ChunkPos::new(67_000_000, -67_000_000, 50_000_000)));
    assert!(!chunk_in_range(ChunkPos::new(67_000_001, 0, 0)));
    assert!(!chunk_in_range(ChunkPos::new(0, 0, -67_000_001)));
}

#[test]
fn plans_are_checked_against_their_chunk() {
    let pos = ChunkPos::new(1, 2, -1);
    let good = flat_plan(pos, 70, Biome::Meadow, Growth::Nothing);
    assert!(plan_fits(pos.origin(), &good));
    let mut short = flat_plan(pos, 70, Biome::Meadow, Growth::Nothing);
    short.window.pop();
    assert!(!plan_fits(pos.origin(), &short));
    let mut few_flags = flat_plan(pos, 70, Biome::Meadow, Growth::Nothing);
    few_flags.flags.pop();
    assert!(!plan_fits(pos.origin(), &few_flags));
    let mut extra_site = flat_plan(pos, 70, Biome::Meadow, Growth::Nothing);
    let s0 = extra_site.sites[0];
    extra_site.sites.push(s0);
    assert!(!plan_fits(pos.origin(), &extra_site));
    let high = flat_plan(pos, 2_146_000_001, Biome::Meadow, Growth::Nothing);
    assert!(!plan_fits(pos.origin(), &high));
}

#[test]
fn far_chunks_generate() {
    let g = WorldGenerator::new(5);
    let pos = ChunkPos::new(60_000_000, 2, -60_000_000);
    let plan = flat_plan(pos, 70, Biome::Forest, Growth::Tree);
    assert!(plan_fits(pos.origin(), &plan));
    let c = g.generate_chunk(pos, &plan);
    assert!(c.is_well_formed());
}

fn mix(z: u64) -> u64 {
    let z = (z ^ (z >> 30)).wrapping_mul(0xBF58_476D_1CE4_E5B9);
    let z = (z ^ (z >> 27)).wrapping_mul(0x94D0_49BB_1331_11EB);
    z ^ (z >> 31)
}

#[test]
fn splitmix_draw_k_mixes_seed_plus_k_increments() {
    for seed in [0u64, 1, 0xDEAD_BEEF, u64::MAX] {
        let mut r = SplitMix64::new(seed);
        for k in 0..50u64 {
            let want = mix(seed.wrapping_add((k + 1).wrapping_mul(0x9E37_79B9_7F4A_7C15)));
            assert_eq!(r.next_u64(), want);
        }
    }
}
