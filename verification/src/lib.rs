//! The rules of a small dungeon crawler: map carving, room placement,
//! monsters, combat and turn decisions, with their contracts.

pub mod colors;
pub mod rect;
pub mod map;
pub mod game;
pub mod object;
pub mod turns;
pub mod dungeon;
pub mod world;
pub mod render;
pub mod reach;
