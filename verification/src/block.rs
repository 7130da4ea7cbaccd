//! Block (voxel material) definitions and the runtime registry.
//!
//! Blocks are referred to by a small integer [`BlockId`] everywhere in the hot
//! paths; their rich properties live in a [`BlockRegistry`] that is built once
//! at startup.

use vstd::prelude::*;

pub mod blocks;

verus! {

/// Compact handle for a block type. `0` is always air.
#[derive(Clone, Copy, PartialEq, Eq, Structural, Hash, Debug, PartialOrd, Ord)]
pub struct BlockId(pub u16);

impl BlockId {
    /// The air block (id `0`).
    #[allow(non_snake_case)]
    pub fn AIR() -> (r: BlockId)
        ensures
            r == BlockId(0),
    {
        BlockId(0)
    }

    pub fn is_air(self) -> (r: bool)
        ensures
            r == (self.0 == 0),
    {
        self.0 == 0
    }

    pub fn index(self) -> (r: usize)
        ensures
            r == self.0,
    {
        self.0 as usize
    }
}

/// How light and rendering treat a block.
#[derive(Clone, Copy, PartialEq, Eq, Structural, Debug)]
pub enum RenderKind {
    /// Nothing is drawn (air).
    Invisible,
    /// A full opaque cube that hides the faces of neighbours touching it.
    OpaqueCube,
    /// A full cube that is see-through (leaves, glass): drawn, but does not
    /// cull neighbouring faces of other block types.
    TransparentCube,
    /// A translucent fluid surface (water).
    Fluid,
    /// A small plant drawn as two crossed quads (flowers, grass, mushrooms).
    Cross,
}

/// Linear RGB-ish colour used for vertex tinting, stored as 4 bytes.
#[derive(Clone, Copy, PartialEq, Eq, Structural, Debug)]
pub struct Color {
    pub r: u8,
    pub g: u8,
    pub b: u8,
    pub a: u8,
}

impl Color {
    pub fn rgb(r: u8, g: u8, b: u8) -> (c: Self)
        ensures
            c == (Color { r, g, b, a: 255 }),
    {
        Color { r, g, b, a: 255 }
    }

    pub fn rgba(r: u8, g: u8, b: u8, a: u8) -> (c: Self)
        ensures
            c == (Color { r, g, b, a }),
    {
        Color { r, g, b, a }
    }

    pub fn to_array(self) -> (arr: [u8; 4])
        ensures
            arr@ == seq![self.r, self.g, self.b, self.a],
    {
        [self.r, self.g, self.b, self.a]
    }
}

/// Full description of a block type.
#[derive(Clone, Debug)]
pub struct Block {
    pub name: &'static str,
    pub render: RenderKind,
    /// Blocks the player / entities collide against.
    pub solid: bool,
    /// Base tint.
    pub color: Color,
    /// Light emitted (0..15).
    pub light_emission: u8,
    /// Whether the player can mine and collect it.
    pub harvestable: bool,
}

impl Block {
    /// True if this block completely hides the touching face of a neighbour
    /// (used for face culling during meshing): exactly the opaque cubes.
    pub fn occludes(&self) -> (r: bool)
        ensures
            r == (self.render == RenderKind::OpaqueCube),
    {
        match self.render {
            RenderKind::OpaqueCube => true,
            _ => false,
        }
    }

    pub fn is_visible(&self) -> (r: bool)
        ensures
            r == (self.render != RenderKind::Invisible),
    {
        match self.render {
            RenderKind::Invisible => false,
            _ => true,
        }
    }

    pub fn is_fluid(&self) -> (r: bool)
        ensures
            r == (self.render == RenderKind::Fluid),
    {
        match self.render {
            RenderKind::Fluid => true,
            _ => false,
        }
    }

    /// A crossed-quad plant rather than a cube.
    pub fn is_cross(&self) -> (r: bool)
        ensures
            r == (self.render == RenderKind::Cross),
    {
        match self.render {
            RenderKind::Cross => true,
            _ => false,
        }
    }

    /// A full-cube visible block (opaque, transparent or fluid); excludes
    /// cross plants and air.
    pub fn is_cube(&self) -> (r: bool)
        ensures
            r == (self.render == RenderKind::OpaqueCube || self.render
                == RenderKind::TransparentCube || self.render == RenderKind::Fluid),
    {
        match self.render {
            RenderKind::OpaqueCube | RenderKind::TransparentCube | RenderKind::Fluid => true,
            _ => false,
        }
    }
}

/// Registry mapping [`BlockId`] to [`Block`] definitions.
#[derive(Clone)]
pub struct BlockRegistry {
    blocks: Vec<Block>,
}

impl View for BlockRegistry {
    type V = Seq<Block>;

    closed spec fn view(&self) -> Seq<Block> {
        self.blocks@
    }
}

/// The definition that [`BlockRegistry::get`] resolves an id to: the
/// registered block, or block `0` for an unregistered id.
pub open spec fn resolve(blocks: Seq<Block>, id: BlockId) -> Block {
    if (id.0 as int) < blocks.len() {
        blocks[id.0 as int]
    } else {
        blocks[0]
    }
}

/// The block definitions of the default registry, in id order.
pub open spec fn default_blocks() -> Seq<Block> {
    seq![
        Block { name: "air", render: RenderKind::Invisible, solid: false, color: Color { r: 0, g: 0, b: 0, a: 0 }, light_emission: 0, harvestable: false },
        Block { name: "grass", render: RenderKind::OpaqueCube, solid: true, color: Color { r: 126, g: 200, b: 96, a: 255 }, light_emission: 0, harvestable: true },
        Block { name: "dirt", render: RenderKind::OpaqueCube, solid: true, color: Color { r: 150, g: 108, b: 74, a: 255 }, light_emission: 0, harvestable: true },
        Block { name: "stone", render: RenderKind::OpaqueCube, solid: true, color: Color { r: 150, g: 152, b: 160, a: 255 }, light_emission: 0, harvestable: true },
        Block { name: "sand", render: RenderKind::OpaqueCube, solid: true, color: Color { r: 237, g: 222, b: 167, a: 255 }, light_emission: 0, harvestable: true },
        Block { name: "water", render: RenderKind::Fluid, solid: false, color: Color { r: 90, g: 170, b: 220, a: 160 }, light_emission: 0, harvestable: false },
        Block { name: "trunk", render: RenderKind::OpaqueCube, solid: true, color: Color { r: 140, g: 100, b: 70, a: 255 }, light_emission: 0, harvestable: true },
        Block { name: "leaves", render: RenderKind::TransparentCube, solid: true, color: Color { r: 96, g: 178, b: 88, a: 235 }, light_emission: 0, harvestable: true },
        Block { name: "snow", render: RenderKind::OpaqueCube, solid: true, color: Color { r: 238, g: 244, b: 250, a: 255 }, light_emission: 0, harvestable: true },
        Block { name: "flower_pink", render: RenderKind::Cross, solid: false, color: Color { r: 244, g: 162, b: 196, a: 255 }, light_emission: 0, harvestable: true },
        Block { name: "flower_blue", render: RenderKind::Cross, solid: false, color: Color { r: 150, g: 180, b: 240, a: 255 }, light_emission: 0, harvestable: true },
        Block { name: "plank", render: RenderKind::OpaqueCube, solid: true, color: Color { r: 206, g: 162, b: 110, a: 255 }, light_emission: 0, harvestable: true },
        Block { name: "lantern", render: RenderKind::OpaqueCube, solid: true, color: Color { r: 255, g: 214, b: 140, a: 255 }, light_emission: 14, harvestable: true },
        Block { name: "mushroom", render: RenderKind::Cross, solid: false, color: Color { r: 214, g: 96, b: 96, a: 255 }, light_emission: 2, harvestable: true },
        Block { name: "pumpkin", render: RenderKind::OpaqueCube, solid: true, color: Color { r: 232, g: 150, b: 70, a: 255 }, light_emission: 0, harvestable: true },
        Block { name: "glass", render: RenderKind::TransparentCube, solid: true, color: Color { r: 205, g: 232, b: 240, a: 110 }, light_emission: 0, harvestable: true },
        Block { name: "cobble", render: RenderKind::OpaqueCube, solid: true, color: Color { r: 124, g: 126, b: 132, a: 255 }, light_emission: 0, harvestable: true },
        Block { name: "path", render: RenderKind::OpaqueCube, solid: true, color: Color { r: 168, g: 138, b: 96, a: 255 }, light_emission: 0, harvestable: true },
        Block { name: "crystal", render: RenderKind::OpaqueCube, solid: true, color: Color { r: 170, g: 224, b: 230, a: 255 }, light_emission: 11, harvestable: true },
        Block { name: "tall_grass", render: RenderKind::Cross, solid: false, color: Color { r: 120, g: 196, b: 104, a: 255 }, light_emission: 0, harvestable: true },
        Block { name: "berry_bush", render: RenderKind::Cross, solid: false, color: Color { r: 176, g: 96, b: 110, a: 255 }, light_emission: 0, harvestable: true },
        Block { name: "roof", render: RenderKind::OpaqueCube, solid: true, color: Color { r: 196, g: 104, b: 86, a: 255 }, light_emission: 0, harvestable: true },
        Block { name: "coal_ore", render: RenderKind::OpaqueCube, solid: true, color: Color { r: 78, g: 80, b: 86, a: 255 }, light_emission: 0, harvestable: true },
    ]
}

/// An opaque, harvestable, non-emitting cube.
fn opaque_block(name: &'static str, color: Color, solid: bool) -> (b: Block)
    ensures
        b == (Block {
            name,
            render: RenderKind::OpaqueCube,
            solid,
            color,
            light_emission: 0,
            harvestable: true,
        }),
{
    Block { name, render: RenderKind::OpaqueCube, solid, color, light_emission: 0, harvestable: true }
}

impl BlockRegistry {
    pub fn new() -> (r: Self)
        ensures
            r@ == Seq::<Block>::empty(),
    {
        BlockRegistry { blocks: Vec::new() }
    }

    /// Register a block, returning its assigned id (the previous length).
    pub fn register(&mut self, block: Block) -> (id: BlockId)
        requires
            old(self)@.len() <= u16::MAX,
        ensures
            final(self)@ == old(self)@.push(block),
            id.0 == old(self)@.len(),
    {
        let id = BlockId(self.blocks.len() as u16);
        self.blocks.push(block);
        id
    }

    /// The definition of `id`; an unregistered id falls back to block `0`.
    pub fn get(&self, id: BlockId) -> (r: &Block)
        requires
            self@.len() > 0,
        ensures
            *r == resolve(self@, id),
    {
        let i = id.index();
        if i < self.blocks.len() {
            &self.blocks[i]
        } else {
            &self.blocks[0]
        }
    }

    pub fn len(&self) -> (r: usize)
        ensures
            r == self@.len(),
    {
        self.blocks.len()
    }

    pub fn is_empty(&self) -> (r: bool)
        ensures
            r == (self@.len() == 0),
    {
        self.blocks.len() == 0
    }

    /// Build the registry of the default block set; ids match
    /// [`blocks`](self::blocks).
    pub fn with_defaults() -> (r: Self)
        ensures
            r@ == default_blocks(),
    {
        let mut r = Self::new();
        // 0: air
        r.register(Block {
            name: "air",
            render: RenderKind::Invisible,
            solid: false,
            color: Color::rgba(0, 0, 0, 0),
            light_emission: 0,
            harvestable: false,
        });
        // 1: grass — soft meadow green
        r.register(opaque_block("grass", Color::rgb(126, 200, 96), true));
        // 2: dirt — warm cocoa
        r.register(opaque_block("dirt", Color::rgb(150, 108, 74), true));
        // 3: stone — gentle slate
        r.register(opaque_block("stone", Color::rgb(150, 152, 160), true));
        // 4: sand — pale honey
        r.register(opaque_block("sand", Color::rgb(237, 222, 167), true));
        // 5: water — translucent aqua
        r.register(Block {
            name: "water",
            render: RenderKind::Fluid,
            solid: false,
            color: Color::rgba(90, 170, 220, 160),
            light_emission: 0,
            harvestable: false,
        });
        // 6: tree trunk — soft bark
        r.register(opaque_block("trunk", Color::rgb(140, 100, 70), true));
        // 7: leaves — rounded canopy, slightly see-through
        r.register(Block {
            name: "leaves",
            render: RenderKind::TransparentCube,
            solid: true,
            color: Color::rgba(96, 178, 88, 235),
            light_emission: 0,
            harvestable: true,
        });
        // 8: snow — bright but not harsh
        r.register(opaque_block("snow", Color::rgb(238, 244, 250), true));
        // 9: pink flower
        r.register(Block {
            name: "flower_pink",
            render: RenderKind::Cross,
            solid: false,
            color: Color::rgb(244, 162, 196),
            light_emission: 0,
            harvestable: true,
        });
        // 10: blue flower
        r.register(Block {
            name: "flower_blue",
            render: RenderKind::Cross,
            solid: false,
            color: Color::rgb(150, 180, 240),
            light_emission: 0,
            harvestable: true,
        });
        // 11: crafted plank — cosy build material
        r.register(opaque_block("plank", Color::rgb(206, 162, 110), true));
        // 12: lantern — warm glow, the cosy light source
        r.register(Block {
            name: "lantern",
            render: RenderKind::OpaqueCube,
            solid: true,
            color: Color::rgb(255, 214, 140),
            light_emission: 14,
            harvestable: true,
        });
        // 13: mushroom — toadstool red
        r.register(Block {
            name: "mushroom",
            render: RenderKind::Cross,
            solid: false,
            color: Color::rgb(214, 96, 96),
            light_emission: 2,
            harvestable: true,
        });
        // 14: pumpkin — autumn orange
        r.register(opaque_block("pumpkin", Color::rgb(232, 150, 70), true));
        // 15: glass — cottage windows, see-through and non-occluding
        r.register(Block {
            name: "glass",
            render: RenderKind::TransparentCube,
            solid: true,
            color: Color::rgba(205, 232, 240, 110),
            light_emission: 0,
            harvestable: true,
        });
        // 16: cobblestone — sturdy build base / ruins
        r.register(opaque_block("cobble", Color::rgb(124, 126, 132), true));
        // 17: path — packed earthy walkway
        r.register(opaque_block("path", Color::rgb(168, 138, 96), true));
        // 18: crystal — glowing cave gem, soft cosy light
        r.register(Block {
            name: "crystal",
            render: RenderKind::OpaqueCube,
            solid: true,
            color: Color::rgb(170, 224, 230),
            light_emission: 11,
            harvestable: true,
        });
        // 19: tall grass — wispy ground cover, non-solid
        r.register(Block {
            name: "tall_grass",
            render: RenderKind::Cross,
            solid: false,
            color: Color::rgb(120, 196, 104),
            light_emission: 0,
            harvestable: true,
        });
        // 20: berry bush — collectible snack
        r.register(Block {
            name: "berry_bush",
            render: RenderKind::Cross,
            solid: false,
            color: Color::rgb(176, 96, 110),
            light_emission: 0,
            harvestable: true,
        });
        // 21: roof — warm clay tile for cottages
        r.register(opaque_block("roof", Color::rgb(196, 104, 86), true));
        // 22: coal ore — speckled dark stone
        r.register(opaque_block("coal_ore", Color::rgb(78, 80, 86), true));
        assert(r@ =~= default_blocks());
        r
    }
}

impl Default for BlockRegistry {
    fn default() -> (r: Self)
        ensures
            r@ == default_blocks(),
    {
        Self::with_defaults()
    }
}

} // verus!
