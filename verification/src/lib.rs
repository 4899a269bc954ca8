//! voxelith — the logical voxel grid of a Minecraft-like engine: block states,
//! paletted sub-chunks, chunk columns, the loaded world, the block registry,
//! terrain layering, player edits and saves, face-culled and greedy meshing,
//! chunk streaming decisions, the chat line, player collision and UI glyphs.

pub mod block;
pub mod palette;
pub mod chunk;
pub mod world;
pub mod registry;
pub mod texture;
pub mod store;
pub mod biome;
pub mod worldgen;
pub mod gen;
pub mod stream;
pub mod text;
pub mod chat;
pub mod edit;
pub mod player;
pub mod menu;
pub mod save;
pub mod greedy;
pub mod cull;
pub mod glyph;
