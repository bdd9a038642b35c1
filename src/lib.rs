//! Procedural dungeon levels: room placement, corridor routing, stair
//! placement, wall rendering and line-of-sight.

mod random;

pub mod colors;
pub mod components;
pub mod connectivity;
pub mod hallways;
pub mod level;
pub mod tilegrid;

pub mod rooms;
pub mod stairs;
pub mod tile;
pub mod visibility;
