use vstd::prelude::*;

verus! {

/// The geometry handed to the map generator.
#[derive(Clone, Copy, Debug, PartialEq, Eq, Structural)]
pub struct MapConfig {
    /// Number of floors in an act.
    pub height: i32,
    /// Number of room slots on a floor.
    pub width: i32,
    /// Generator tuning: how many paths are drawn through an act.
    pub path_density: i32,
}

pub const STANDARD_HEIGHT: i32 = 15;

pub const STANDARD_WIDTH: i32 = 7;

pub const STANDARD_PATH_DENSITY: i32 = 6;

impl MapConfig {
    pub fn new(height: i32, width: i32, path_density: i32) -> (r: MapConfig)
        ensures
            r.height == height,
            r.width == width,
            r.path_density == path_density,
    {
        MapConfig { height, width, path_density }
    }

    /// The geometry of the game's acts.
    pub fn standard() -> (r: MapConfig)
        ensures
            r.height == STANDARD_HEIGHT,
            r.width == STANDARD_WIDTH,
            r.path_density == STANDARD_PATH_DENSITY,
    {
        MapConfig::new(STANDARD_HEIGHT, STANDARD_WIDTH, STANDARD_PATH_DENSITY)
    }
}

} // verus!
