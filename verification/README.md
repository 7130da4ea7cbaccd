# PixelCraft

A cosy voxel world engine whose core is proved correct with Verus.

- `src/` — the verified library: chunk coordinates, the block registry,
  palette-compressed chunk storage and its byte encoding, the sparse chunk
  world and block edits, greedy meshing with ambient occlusion and baked
  light, flood-filled sky and block light, seeded permutation noise and the
  integer side of world generation (terrain layers, trees, flora, cottages),
  chunk streaming decisions, inventory, crafting, quests, save files, NPC
  dialogue and the texture-array layout. Every public function carries a
  contract; the `lemma_*` proof functions state the library's laws (reads
  give back writes, edits are undone by writing back, greedy covers are
  exact and unique partitions, light floods are unique, generated chunks are
  seamless across borders, saves round-trip, and more).
- `tests/` — executable tests of the library.
- `app/` — the game around it: floating-point noise sampling, physics,
  entities, particles, the streaming worker pool, and the `wgpu` / `winit`
  renderer. Run without arguments for a headless simulation, with `window`
  for the windowed game, `screenshot` for offscreen stills, or `save` /
  `load` for sessions.
