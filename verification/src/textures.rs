//! Procedural block texture tiles and the texture array they are packed
//! into: one layer per block id, plus a trailing solid white tile for
//! untextured geometry. Patterns themselves are painted by the renderer;
//! this module holds the tile canvas and the array layout.

use vstd::prelude::*;

verus! {

/// Edge length of each tile in texels.
pub const TILE: u32 = 16;

/// Bytes in one RGBA tile.
pub const TILE_BYTES: usize = 1024;

/// A `TILE × TILE` RGBA8 tile, row by row.
#[derive(Clone, Debug)]
pub struct Canvas {
    px: Vec<u8>,
}

impl View for Canvas {
    type V = Seq<u8>;

    closed spec fn view(&self) -> Seq<u8> {
        self.px@
    }
}

/// The byte offset of texel `(x, y)`.
pub open spec fn texel(x: int, y: int) -> int {
    4 * (y * 16 + x)
}

/// Opaque black, texel after texel.
pub open spec fn black_tile() -> Seq<u8> {
    Seq::new(1024, |i: int| if i % 4 == 3 { 255u8 } else { 0u8 })
}

impl Canvas {
    /// A tile of opaque black.
    pub fn new() -> (r: Self)
        ensures
            r@ == black_tile(),
    {
        let mut px: Vec<u8> = Vec::new();
        let mut i: usize = 0;
        while i < TILE_BYTES
            invariant
                i <= 1024,
                px@ == black_tile().take(i as int),
            decreases 1024 - i,
        {
            px.push(if i % 4 == 3 { 255u8 } else { 0u8 });
            proof {
                assert(px@ =~= black_tile().take(i as int + 1));
            }
            i += 1;
        }
        proof {
            assert(black_tile().take(1024) =~= black_tile());
        }
        Canvas { px }
    }

    /// Set texel `(x, y)`.
    pub fn set(&mut self, x: u32, y: u32, rgba: [u8; 4])
        requires
            old(self)@.len() == 1024,
            x < 16,
            y < 16,
        ensures
            final(self)@ == old(self)@.update(texel(x as int, y as int), rgba@[0]).update(
                texel(x as int, y as int) + 1,
                rgba@[1],
            ).update(texel(x as int, y as int) + 2, rgba@[2]).update(texel(x as int, y as int) + 3, rgba@[3]),
    {
        let i = (4 * (y * TILE + x)) as usize;
        self.px.set(i, rgba[0]);
        self.px.set(i + 1, rgba[1]);
        self.px.set(i + 2, rgba[2]);
        self.px.set(i + 3, rgba[3]);
    }

    /// Make every texel fully transparent black.
    pub fn clear_transparent(&mut self)
        requires
            old(self)@.len() == 1024,
        ensures
            final(self)@ == Seq::new(1024, |i: int| 0u8),
    {
        let mut i: usize = 0;
        while i < TILE_BYTES
            invariant
                self@.len() == 1024,
                i <= 1024,
                forall|k: int| 0 <= k < i ==> #[trigger] self@[k] == 0u8,
            decreases 1024 - i,
        {
            self.px.set(i, 0);
            i += 1;
        }
        proof {
            assert(self@ =~= Seq::new(1024, |i: int| 0u8));
        }
    }

    /// The texel bytes.
    pub fn bytes(&self) -> (r: &Vec<u8>)
        ensures
            r@ == self@,
    {
        &self.px
    }
}

/// A generated texture array: `layers` tiles of RGBA8, stored contiguously
/// (layer-major), plus the index of the solid white tile.
pub struct Atlas {
    pub data: Vec<u8>,
    pub layers: u32,
    pub white_layer: u32,
}

/// The tiles' bytes, one after the other.
pub open spec fn concat_tiles(tiles: Seq<Canvas>) -> Seq<u8>
    decreases tiles.len(),
{
    if tiles.len() == 0 {
        Seq::empty()
    } else {
        concat_tiles(tiles.drop_last()) + tiles.last()@
    }
}

/// Pack one tile per block, then the solid white tile.
pub fn assemble_atlas(tiles: &Vec<Canvas>) -> (r: Atlas)
    requires
        tiles@.len() < u32::MAX,
    ensures
        r.data@ == concat_tiles(tiles@) + Seq::new(1024, |i: int| 255u8),
        r.layers == tiles@.len() + 1,
        r.white_layer == tiles@.len(),
{
    let mut data: Vec<u8> = Vec::new();
    let mut k: usize = 0;
    while k < tiles.len()
        invariant
            k <= tiles@.len(),
            data@ == concat_tiles(tiles@.take(k as int)),
        decreases tiles@.len() - k,
    {
        let src = tiles[k].bytes();
        let mut j: usize = 0;
        let ghost start = data@;
        while j < src.len()
            invariant
                j <= src@.len(),
                data@ == start + src@.take(j as int),
            decreases src@.len() - j,
        {
            data.push(src[j]);
            proof {
                assert(src@.take(j as int + 1) =~= src@.take(j as int).push(src@[j as int]));
            }
            j += 1;
        }
        proof {
            assert(src@.take(j as int) =~= src@);
            assert(tiles@.take(k as int + 1).drop_last() =~= tiles@.take(k as int));
        }
        k += 1;
    }
    proof {
        assert(tiles@.take(k as int) =~= tiles@);
    }
    let ghost body = data@;
    let mut i: usize = 0;
    while i < TILE_BYTES
        invariant
            i <= 1024,
            data@ == body + Seq::new(i as nat, |q: int| 255u8),
        decreases 1024 - i,
    {
        data.push(255);
        proof {
            assert(data@ =~= body + Seq::new((i + 1) as nat, |q: int| 255u8));
        }
        i += 1;
    }
    let n = tiles.len() as u32;
    Atlas { data, layers: n + 1, white_layer: n }
}

} // verus!
