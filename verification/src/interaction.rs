//! Mining and building: turning a targeted block into block edits, mediated
//! by the inventory so the cat collects what it breaks and spends what it
//! places.

use crate::block::{resolve, BlockId, BlockRegistry};
use crate::coords::{BlockPos, ChunkPos};
use crate::inventory::{added, holds, hotbar_spec, taken, Inventory};
use crate::world::{after_edit, block_in, chunk_of, index_in_chunk, key_of, World};
use vstd::prelude::*;

verus! {

/// The unit normal of the face a ray entered a block through.
#[derive(Clone, Copy, PartialEq, Eq, Structural, Debug)]
pub struct FaceNormal {
    pub x: i32,
    pub y: i32,
    pub z: i32,
}

/// A successful ray hit against a targetable block.
#[derive(Clone, Copy, PartialEq, Eq, Structural, Debug)]
pub struct RayHit {
    /// The block that was hit.
    pub block: BlockPos,
    /// The normal of the entry face: the adjacent empty cell is
    /// `block + normal`, which is where placement happens.
    pub normal: FaceNormal,
}

impl RayHit {
    /// Cell adjacent to the hit face (placement target).
    pub fn place_pos(&self) -> (r: BlockPos)
        requires
            i32::MIN <= self.block.x + self.normal.x <= i32::MAX,
            i32::MIN <= self.block.y + self.normal.y <= i32::MAX,
            i32::MIN <= self.block.z + self.normal.z <= i32::MAX,
        ensures
            r.x == self.block.x + self.normal.x,
            r.y == self.block.y + self.normal.y,
            r.z == self.block.z + self.normal.z,
    {
        BlockPos::new(
            self.block.x + self.normal.x,
            self.block.y + self.normal.y,
            self.block.z + self.normal.z,
        )
    }
}

/// Outcome of an interaction attempt, for UI feedback and sound triggers.
#[derive(Clone, Copy, Debug, PartialEq, Eq, Structural)]
pub enum Interaction {
    Mined(BlockId),
    Placed(BlockId),
    /// Nothing in reach, or placement was blocked.
    Nothing,
}

/// Mine the targeted block: replace it with air and, if harvestable, add it
/// to the inventory. Air, or a block in an unloaded chunk, yields nothing.
pub fn mine_at(world: &mut World, reg: &BlockRegistry, inv: &mut Inventory, pos: BlockPos) -> (r:
    Interaction)
    requires
        old(world).wf(),
        reg@.len() > 0,
    ensures
        final(world).wf(),
        ({
            let id = block_in(old(world)@, pos);
            if id == BlockId(0) {
                &&& r == Interaction::Nothing
                &&& final(world)@ == old(world)@
                &&& final(inv)@ == old(inv)@
            } else {
                &&& r == Interaction::Mined(id)
                &&& final(world)@ == after_edit(
                    old(world)@,
                    pos,
                    BlockId(0),
                    final(world)@[chunk_of(pos)].storage,
                )
                &&& final(world)@[chunk_of(pos)].storage@ == old(world)@[chunk_of(
                    pos,
                )].storage@.update(index_in_chunk(pos), BlockId(0))
                &&& final(inv)@ == (if resolve(reg@, id).harvestable {
                    added(old(inv)@, id, 1)
                } else {
                    old(inv)@
                })
            }
        }),
        final(inv).slot() == old(inv).slot(),
{
    let id = world.block_at(pos);
    if id.is_air() {
        return Interaction::Nothing;
    }
    let harvestable = reg.get(id).harvestable;
    if !world.set_block(pos, BlockId::AIR()) {
        return Interaction::Nothing;
    }
    if harvestable {
        inv.add(id, 1);
    }
    Interaction::Mined(id)
}

/// Place the selected hotbar block into `cell` (the empty cell against the
/// targeted face), if the cell is empty, does not overlap the player's body,
/// and the inventory holds one. An edit into an unloaded chunk is refunded.
pub fn place_at(world: &mut World, inv: &mut Inventory, cell: BlockPos, overlaps_player: bool) -> (r:
    Interaction)
    requires
        old(world).wf(),
    ensures
        final(world).wf(),
        final(inv).slot() == old(inv).slot(),
        ({
            let block = hotbar_spec()[(old(inv).slot() % 8) as int];
            if block_in(old(world)@, cell) != BlockId(0) || overlaps_player || !holds(
                old(inv)@,
                block,
                1,
            ) || !old(world)@.contains_key(chunk_of(cell)) {
                &&& r == Interaction::Nothing
                &&& final(world)@ == old(world)@
                &&& final(inv)@ == old(inv)@
            } else {
                &&& r == Interaction::Placed(block)
                &&& final(inv)@ == taken(old(inv)@, block, 1)
                &&& final(world)@ == after_edit(old(world)@, cell, block, final(world)@[chunk_of(cell)].storage)
                &&& final(world)@[chunk_of(cell)].storage@ == old(world)@[chunk_of(
                    cell,
                )].storage@.update(index_in_chunk(cell), block)
            }
        }),
{
    if !world.block_at(cell).is_air() {
        return Interaction::Nothing;
    }
    if overlaps_player {
        return Interaction::Nothing;
    }
    let block = inv.selected_block();
    if !inv.take_one(block) {
        return Interaction::Nothing;
    }
    let ghost c0 = old(inv)@;
    if !world.set_block(cell, block) {
        inv.add(block, 1);
        proof {
            assert(added(taken(c0, block, 1), block, 1) =~= c0);
        }
        return Interaction::Nothing;
    }
    Interaction::Placed(block)
}

/// The loaded chunk at `pos` and its six face neighbours, where loaded, are
/// marked for remeshing.
pub fn mark_dirty_with_neighbours(world: &mut World, pos: ChunkPos)
    requires
        old(world).wf(),
        i32::MIN < pos.x < i32::MAX,
        i32::MIN < pos.y < i32::MAX,
        i32::MIN < pos.z < i32::MAX,
    ensures
        final(world).wf(),
        final(world)@.dom() == old(world)@.dom(),
        forall|k: (i32, i32, i32)|
            #[trigger] final(world)@.contains_key(k) ==> final(world)@[k].pos == old(world)@[k].pos
                && final(world)@[k].storage == old(world)@[k].storage && final(world)@[k].dirty == (
                old(world)@[k].dirty || k == key_of(pos) || k == ((pos.x + 1) as i32, pos.y, pos.z)
                    || k == ((pos.x - 1) as i32, pos.y, pos.z) || k == (pos.x, (pos.y + 1) as i32, pos.z)
                    || k == (pos.x, (pos.y - 1) as i32, pos.z) || k == (pos.x, pos.y, (pos.z + 1) as i32)
                    || k == (pos.x, pos.y, (pos.z - 1) as i32)),
{
    world.dirty_neighbour(pos);
    world.dirty_neighbour(pos.offset(1, 0, 0));
    world.dirty_neighbour(pos.offset(-1, 0, 0));
    world.dirty_neighbour(pos.offset(0, 1, 0));
    world.dirty_neighbour(pos.offset(0, -1, 0));
    world.dirty_neighbour(pos.offset(0, 0, 1));
    world.dirty_neighbour(pos.offset(0, 0, -1));
}

} // verus!
