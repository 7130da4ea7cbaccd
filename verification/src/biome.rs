//! Biomes of the cosy cat world and the surface materials each one lays
//! down. Which biome a column gets comes from low-frequency climate noise;
//! this module holds what follows from the biome itself.

use crate::block::blocks;
use crate::block::BlockId;
use vstd::prelude::*;

verus! {

#[derive(Clone, Copy, PartialEq, Eq, Structural, Debug)]
pub enum Biome {
    /// Rolling pastel-green hills — the friendly default.
    Meadow,
    /// Denser tree cover, cosy and shaded.
    Forest,
    /// Sandy honey shores near water.
    Beach,
    /// Cool snowy uplands.
    SnowyPeaks,
    /// Warm sandy dunes with the occasional pumpkin patch.
    Dunes,
}

/// The top block of a biome's land: grass, sand or snow.
pub open spec fn surface_spec(b: Biome) -> BlockId {
    match b {
        Biome::Meadow => BlockId(1),
        Biome::Forest => BlockId(1),
        Biome::Beach => BlockId(4),
        Biome::SnowyPeaks => BlockId(8),
        Biome::Dunes => BlockId(4),
    }
}

/// The few blocks under a biome's surface: dirt, sand or stone.
pub open spec fn subsurface_spec(b: Biome) -> BlockId {
    match b {
        Biome::Meadow => BlockId(2),
        Biome::Forest => BlockId(2),
        Biome::Beach => BlockId(4),
        Biome::SnowyPeaks => BlockId(3),
        Biome::Dunes => BlockId(4),
    }
}

impl Biome {
    /// The top block of this biome's land.
    pub fn surface(self) -> (r: BlockId)
        ensures
            r == surface_spec(self),
    {
        match self {
            Biome::Meadow => blocks::GRASS(),
            Biome::Forest => blocks::GRASS(),
            Biome::Beach => blocks::SAND(),
            Biome::SnowyPeaks => blocks::SNOW(),
            Biome::Dunes => blocks::SAND(),
        }
    }

    /// The blocks just under this biome's surface.
    pub fn subsurface(self) -> (r: BlockId)
        ensures
            r == subsurface_spec(self),
    {
        match self {
            Biome::Meadow => blocks::DIRT(),
            Biome::Forest => blocks::DIRT(),
            Biome::Beach => blocks::SAND(),
            Biome::SnowyPeaks => blocks::STONE(),
            Biome::Dunes => blocks::SAND(),
        }
    }
}

} // verus!
