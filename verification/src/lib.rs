//! Procedural generation of roguelike dungeon levels on a tile grid.
//!
//! A level is built by a [`BuilderChain`]: one initial stage that carves the
//! grid, followed by any number of post-processing stages that pick the start
//! position, cull unreachable pockets, place the exit and request spawns.

pub mod area_based_gen;
pub mod bsp_dungeon;
pub mod bsp_interior;
pub mod build_data;
pub mod cellular_automata;
pub mod chain;
pub mod common;
pub mod dla;
pub mod drunkard;
pub mod flood;
pub mod maze;
pub mod position;
pub mod prefab_builder;
pub mod random;
pub mod rect;
pub mod room_based_gen;
pub mod simple_map;
pub mod spawner;
pub mod tile_map;
pub mod voronoi;
pub mod waveform_collapse;

pub use build_data::{BuildData, BuildError};
pub use chain::{
    build_cave_level, random_builder, BuilderChain, BuilderChains, InitialMapBuilder,
    InitialStage, MetaMapBuilder, MetaStage,
};
pub use position::Position;
pub use rect::Rect;
pub use tile_map::{TileMap, TileType, MAPCOUNT, MAPHEIGHT, MAPWIDTH};
