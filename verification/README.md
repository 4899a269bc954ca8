# voxelith

The logic of a Minecraft-like voxel engine, verified with Verus, and the program
around it.

- `src/` — the verified library: block states and coordinates, paletted 16³
  sub-chunks, 16 × 384 × 16 chunk columns, the loaded world and its cross-chunk
  block reads, the block registry (kinds, face textures, visibility rule), the
  texture and biome catalogues, terrain layering, the edit overlay of a playable
  world (with its save / load round trip), chunk streaming decisions, the chat
  line and history, world-name and save-folder rules, player collision, the lit
  cells of UI glyphs, and the two meshers (face culling and greedy merging).
  Each public function states its result in its `ensures`; cross-function laws
  are `law_*` proof functions.
- `tests/` — tests of the library on concrete values.
- `app/` — the program: window and input (winit), GPU rendering (wgpu), noise
  terrain (noise), threads and channels for streaming (rayon, crossbeam),
  saves on disk (serde_json), and every floating-point computation (camera,
  frustum, player physics, raycast, texel shading, UI layout).
