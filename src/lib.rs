//! Compaction of a generated dungeon act into per-floor lists of rendered
//! rooms whose connections index the next floor's rendered list.

pub mod room;
pub mod compact;
pub mod laws;
pub mod config;
