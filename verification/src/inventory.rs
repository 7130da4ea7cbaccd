//! A cosy little inventory: counts of collected blocks plus a selected build
//! material hotbar.

use crate::block::blocks;
use crate::block::BlockId;
use vstd::prelude::*;

verus! {

/// Number of hotbar slots.
pub const HOTBAR_LEN: usize = 8;

/// The blocks the cat can hold and place, in hotbar order.
pub open spec fn hotbar_spec() -> Seq<BlockId> {
    seq![BlockId(2), BlockId(1), BlockId(3), BlockId(4), BlockId(11), BlockId(6), BlockId(7), BlockId(12)]
}

/// The hotbar: dirt, grass, stone, sand, plank, trunk, leaves, lantern.
pub fn hotbar() -> (r: [BlockId; 8])
    ensures
        r@ == hotbar_spec(),
{
    let r = [
        blocks::DIRT(),
        blocks::GRASS(),
        blocks::STONE(),
        blocks::SAND(),
        blocks::PLANK(),
        blocks::TRUNK(),
        blocks::LEAVES(),
        blocks::LANTERN(),
    ];
    assert(r@ =~= hotbar_spec());
    r
}

/// Counts after adding `n` of `id` (saturating); ids past the table are
/// ignored.
pub open spec fn added(c: Seq<u32>, id: BlockId, n: u32) -> Seq<u32> {
    if (id.0 as int) < c.len() {
        c.update(
            id.0 as int,
            if c[id.0 as int] + n <= u32::MAX {
                (c[id.0 as int] + n) as u32
            } else {
                u32::MAX
            },
        )
    } else {
        c
    }
}

/// Whether at least `n` of `id` are held.
pub open spec fn holds(c: Seq<u32>, id: BlockId, n: u32) -> bool {
    (id.0 as int) < c.len() && c[id.0 as int] >= n
}

/// Counts after taking `n` of `id`: all or nothing.
pub open spec fn taken(c: Seq<u32>, id: BlockId, n: u32) -> Seq<u32> {
    if holds(c, id, n) {
        c.update(id.0 as int, (c[id.0 as int] - n) as u32)
    } else {
        c
    }
}

/// The count of `id` in a table: `0` past its end.
pub open spec fn count_in(c: Seq<u32>, id: BlockId) -> u32 {
    if (id.0 as int) < c.len() {
        c[id.0 as int]
    } else {
        0
    }
}

#[derive(Clone)]
pub struct Inventory {
    /// Count per block id, indexed by `BlockId.0`.
    counts: Vec<u32>,
    /// Currently selected hotbar slot.
    pub selected: usize,
}

impl View for Inventory {
    type V = Seq<u32>;

    closed spec fn view(&self) -> Seq<u32> {
        self.counts@
    }
}

impl Inventory {
    /// The selected hotbar slot: the value of the public field `selected`.
    pub closed spec fn slot(&self) -> usize {
        self.selected
    }

    /// An empty inventory with a slot per registered block (at least one).
    pub fn new(registry_len: usize) -> (r: Self)
        ensures
            r@ == Seq::new(if registry_len > 1 { registry_len as nat } else { 1 }, |i: int| 0u32),
            r.slot() == 0,
    {
        let n = if registry_len > 1 {
            registry_len
        } else {
            1
        };
        let inv = Inventory { counts: vec![0u32; n], selected: 0 };
        assert(inv@ =~= Seq::new(n as nat, |i: int| 0u32));
        inv
    }

    pub fn count(&self, id: BlockId) -> (r: u32)
        ensures
            r == count_in(self@, id),
    {
        let i = id.index();
        if i < self.counts.len() {
            self.counts[i]
        } else {
            0
        }
    }

    /// Add `n` of `id`, saturating at `u32::MAX`.
    pub fn add(&mut self, id: BlockId, n: u32)
        ensures
            final(self)@ == added(old(self)@, id, n),
            final(self).slot() == old(self).slot(),
    {
        let i = id.index();
        if i < self.counts.len() {
            let c = self.counts[i];
            self.counts.set(i, c.saturating_add(n));
        }
    }

    /// Remove one of `id`; returns whether one was available and consumed.
    pub fn take_one(&mut self, id: BlockId) -> (r: bool)
        ensures
            r == holds(old(self)@, id, 1),
            final(self)@ == taken(old(self)@, id, 1),
            final(self).slot() == old(self).slot(),
    {
        self.take(id, 1)
    }

    /// Remove `n` of `id` if at least that many are held; returns whether it
    /// succeeded (all or nothing).
    pub fn take(&mut self, id: BlockId, n: u32) -> (r: bool)
        ensures
            r == holds(old(self)@, id, n),
            final(self)@ == taken(old(self)@, id, n),
            final(self).slot() == old(self).slot(),
    {
        let i = id.index();
        if i < self.counts.len() {
            let c = self.counts[i];
            if c >= n {
                self.counts.set(i, c - n);
                return true;
            }
        }
        false
    }

    /// The block in the selected hotbar slot (taken modulo the hotbar).
    pub fn selected_block(&self) -> (r: BlockId)
        ensures
            r == hotbar_spec()[(self.slot() % 8) as int],
    {
        let bar = hotbar();
        bar[self.selected % HOTBAR_LEN]
    }

    pub fn select(&mut self, slot: usize)
        ensures
            final(self).slot() == slot % 8,
            final(self)@ == old(self)@,
    {
        self.selected = slot % HOTBAR_LEN;
    }

    /// Scroll the hotbar selection by `delta`, wrapping around. The slot is
    /// read as an `i32` (wrapping), and the sum must fit an `i32`.
    pub fn scroll(&mut self, delta: i32)
        requires
            i32::MIN <= (old(self).slot() as i32) + delta <= i32::MAX,
        ensures
            final(self).slot() == ((old(self).slot() as i32) + delta) % 8,
            final(self)@ == old(self)@,
    {
        let cur = self.selected as i32;
        let sum = (cur + delta) as i64;
        let next: i64 = if sum >= 0 {
            sum % 8
        } else {
            let back = (-sum) % 8;
            proof {
                assert((8 - back) % 8 == sum % 8) by (nonlinear_arith)
                    requires
                        sum < 0,
                        back == (-sum) % 8,
                ;
            }
            (8 - back) % 8
        };
        self.selected = next as usize;
    }
}

/// Adding and then taking the same amount gives the counts back, unless the
/// add saturated.
pub proof fn lemma_take_undoes_add(c: Seq<u32>, id: BlockId, n: u32)
    requires
        (id.0 as int) < c.len(),
        c[id.0 as int] + n <= u32::MAX,
    ensures
        holds(added(c, id, n), id, n),
        taken(added(c, id, n), id, n) == c,
{
    assert(taken(added(c, id, n), id, n) =~= c);
}

/// A failed take leaves the counts as they were.
pub proof fn lemma_failed_take_is_noop(c: Seq<u32>, id: BlockId, n: u32)
    requires
        !holds(c, id, n),
    ensures
        taken(c, id, n) == c,
{
}

} // verus!
