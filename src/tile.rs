//! The kinds of tile a level is made of.

use vstd::prelude::*;

verus! {

/// The smallest addressable location of a level, drawn as one character.
#[derive(Debug, Clone, Copy, PartialEq, Eq, Structural)]
pub enum DungeonTile {
    Floor,
    Wall,
    Hallway,
    Upstair,
    Downstair,
}

/// Every tile kind but `Wall` counts as floor when walls are drawn.
pub open spec fn floor_kind(t: DungeonTile) -> bool {
    t != DungeonTile::Wall
}

impl DungeonTile {
    /// Whether this tile counts as floor for the purposes of drawing walls.
    pub fn is_floor(&self) -> (r: bool)
        ensures
            r == floor_kind(*self),
    {
        match self {
            DungeonTile::Wall => false,
            _ => true,
        }
    }

    /// Whether creatures can travel through this tile.
    pub fn is_navigable(&self) -> (r: bool)
        ensures
            r == floor_kind(*self),
    {
        self.is_floor()
    }
}

} // verus!
