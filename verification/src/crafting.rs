//! A small crafting system: cosy recipes that turn gathered resources into
//! useful building blocks. Pure logic over the [`Inventory`].

use crate::block::blocks;
use crate::block::BlockId;
use crate::inventory::{added, count_in, holds, taken, Inventory};
use vstd::prelude::*;

verus! {

/// A recipe: consume `inputs`, produce `output`.
pub struct Recipe {
    pub name: &'static str,
    pub inputs: Vec<(BlockId, u32)>,
    pub output: (BlockId, u32),
}

/// Whether every ingredient is held in the required amount.
pub open spec fn can_afford(c: Seq<u32>, inputs: Seq<(BlockId, u32)>) -> bool {
    forall|k: int| 0 <= k < inputs.len() ==> count_in(c, #[trigger] inputs[k].0) >= inputs[k].1
}

/// Counts after taking each ingredient in turn.
pub open spec fn consume(c: Seq<u32>, inputs: Seq<(BlockId, u32)>) -> Seq<u32>
    decreases inputs.len(),
{
    if inputs.len() == 0 {
        c
    } else {
        taken(consume(c, inputs.drop_last()), inputs.last().0, inputs.last().1)
    }
}

pub(crate) fn copy_pairs(v: &Vec<(BlockId, u32)>) -> (r: Vec<(BlockId, u32)>)
    ensures
        r@ == v@,
{
    let mut r: Vec<(BlockId, u32)> = Vec::new();
    let mut k: usize = 0;
    while k < v.len()
        invariant
            k <= v@.len(),
            r@ == v@.take(k as int),
        decreases v@.len() - k,
    {
        r.push(v[k]);
        proof {
            assert(v@.take(k as int + 1) =~= v@.take(k as int).push(v@[k as int]));
        }
        k += 1;
    }
    proof {
        assert(v@.take(v@.len() as int) =~= v@);
    }
    r
}

impl Clone for Recipe {
    fn clone(&self) -> (r: Self)
        ensures
            r.name == self.name,
            r.inputs@ == self.inputs@,
            r.output == self.output,
    {
        Recipe { name: self.name, inputs: copy_pairs(&self.inputs), output: self.output }
    }
}

impl Recipe {
    /// True if the inventory holds every ingredient.
    pub fn affordable(&self, inv: &Inventory) -> (r: bool)
        ensures
            r == can_afford(inv@, self.inputs@),
    {
        let mut k: usize = 0;
        while k < self.inputs.len()
            invariant
                k <= self.inputs@.len(),
                forall|q: int| 0 <= q < k ==> count_in(inv@, #[trigger] self.inputs@[q].0) >= self.inputs@[q].1,
            decreases self.inputs@.len() - k,
        {
            let (id, n) = self.inputs[k];
            if inv.count(id) < n {
                return false;
            }
            k += 1;
        }
        true
    }
}

/// The recipe book as (name, ingredients, output).
pub open spec fn recipe_book() -> Seq<(Seq<char>, Seq<(BlockId, u32)>, (BlockId, u32))> {
    seq![
        ("PLANKS"@, seq![(BlockId(6), 1u32)], (BlockId(11), 4u32)),
        ("COBBLE"@, seq![(BlockId(3), 1u32)], (BlockId(16), 1u32)),
        ("GLASS"@, seq![(BlockId(4), 2u32)], (BlockId(15), 2u32)),
        ("LANTERN"@, seq![(BlockId(11), 3u32), (BlockId(22), 1u32)], (BlockId(12), 2u32)),
        ("ROOF TILES"@, seq![(BlockId(16), 2u32), (BlockId(22), 1u32)], (BlockId(21), 4u32)),
        ("GLOW GLASS"@, seq![(BlockId(18), 1u32)], (BlockId(15), 4u32)),
    ]
}

/// Whether a recipe value is entry `i` of the book.
pub open spec fn is_entry(r: Recipe, i: int) -> bool {
    &&& r.name@ == recipe_book()[i].0
    &&& r.inputs@ == recipe_book()[i].1
    &&& r.output == recipe_book()[i].2
}

fn recipe(name: &'static str, inputs: Vec<(BlockId, u32)>, output: (BlockId, u32)) -> (r: Recipe)
    ensures
        r.name == name,
        r.inputs@ == inputs@,
        r.output == output,
{
    Recipe { name, inputs, output }
}

/// The cosy recipe book.
pub fn recipes() -> (r: Vec<Recipe>)
    ensures
        r@.len() == recipe_book().len(),
        forall|i: int| 0 <= i < r@.len() ==> is_entry(#[trigger] r@[i], i),
        r@.len() == 6,
        // PLANKS: one trunk gives four planks.
        r@[0].name@ == "PLANKS"@ && r@[0].inputs@ == seq![(BlockId(6), 1u32)] && r@[0].output == (
            BlockId(11),
            4u32,
        ),
        // COBBLE: one stone gives one cobble.
        r@[1].name@ == "COBBLE"@ && r@[1].inputs@ == seq![(BlockId(3), 1u32)] && r@[1].output == (
            BlockId(16),
            1u32,
        ),
        // GLASS: two sand give two glass.
        r@[2].name@ == "GLASS"@ && r@[2].inputs@ == seq![(BlockId(4), 2u32)] && r@[2].output == (
            BlockId(15),
            2u32,
        ),
        // LANTERN: three planks and one coal ore give two lanterns.
        r@[3].name@ == "LANTERN"@ && r@[3].inputs@ == seq![(BlockId(11), 3u32), (BlockId(22), 1u32)]
            && r@[3].output == (BlockId(12), 2u32),
        // ROOF TILES: two cobble and one coal ore give four roof tiles.
        r@[4].name@ == "ROOF TILES"@ && r@[4].inputs@ == seq![(BlockId(16), 2u32), (BlockId(22), 1u32)]
            && r@[4].output == (BlockId(21), 4u32),
        // GLOW GLASS: one crystal gives four glass.
        r@[5].name@ == "GLOW GLASS"@ && r@[5].inputs@ == seq![(BlockId(18), 1u32)] && r@[5].output == (
            BlockId(15),
            4u32,
        ),
{
    let mut book: Vec<Recipe> = Vec::new();
    book.push(recipe("PLANKS", vec![(blocks::TRUNK(), 1)], (blocks::PLANK(), 4)));
    book.push(recipe("COBBLE", vec![(blocks::STONE(), 1)], (blocks::COBBLE(), 1)));
    book.push(recipe("GLASS", vec![(blocks::SAND(), 2)], (blocks::GLASS(), 2)));
    book.push(
        recipe("LANTERN", vec![(blocks::PLANK(), 3), (blocks::COAL_ORE(), 1)], (blocks::LANTERN(), 2)),
    );
    book.push(
        recipe("ROOF TILES", vec![(blocks::COBBLE(), 2), (blocks::COAL_ORE(), 1)], (blocks::ROOF(), 4)),
    );
    book.push(recipe("GLOW GLASS", vec![(blocks::CRYSTAL(), 1)], (blocks::GLASS(), 4)));
    proof {
        assert(book@[0].inputs@ =~= recipe_book()[0].1);
        assert(book@[1].inputs@ =~= recipe_book()[1].1);
        assert(book@[2].inputs@ =~= recipe_book()[2].1);
        assert(book@[3].inputs@ =~= recipe_book()[3].1);
        assert(book@[4].inputs@ =~= recipe_book()[4].1);
        assert(book@[5].inputs@ =~= recipe_book()[5].1);
    }
    book
}

/// Attempt to craft recipe `index`: on success the ingredients are taken and
/// the output granted; returns whether it crafted.
pub fn craft(inv: &mut Inventory, index: usize) -> (r: bool)
    ensures
        r == (index < recipe_book().len() && can_afford(old(inv)@, recipe_book()[index as int].1)),
        r ==> final(inv)@ == added(
            consume(old(inv)@, recipe_book()[index as int].1),
            recipe_book()[index as int].2.0,
            recipe_book()[index as int].2.1,
        ),
        !r ==> final(inv)@ == old(inv)@,
        final(inv).slot() == old(inv).slot(),
{
    let book = recipes();
    if index >= book.len() {
        return false;
    }
    let recipe = &book[index];
    proof {
        assert(is_entry(book@[index as int], index as int));
    }
    if !recipe.affordable(inv) {
        return false;
    }
    let ghost c0 = inv@;
    let mut k: usize = 0;
    while k < recipe.inputs.len()
        invariant
            k <= recipe.inputs@.len(),
            inv@ == consume(c0, recipe.inputs@.take(k as int)),
            inv.slot() == old(inv).slot(),
        decreases recipe.inputs@.len() - k,
    {
        let (id, n) = recipe.inputs[k];
        let _ = inv.take(id, n);
        proof {
            assert(recipe.inputs@.take(k as int + 1).drop_last() =~= recipe.inputs@.take(k as int));
        }
        k += 1;
    }
    proof {
        assert(recipe.inputs@.take(recipe.inputs@.len() as int) =~= recipe.inputs@);
    }
    inv.add(recipe.output.0, recipe.output.1);
    true
}

/// Glass is made of sand: whenever the inventory holds at least two sand
/// (block 4), recipe 2 can be crafted, and crafting it takes exactly two
/// sand and grants two glass (block 15) (up to the `u32` ceiling), leaving
/// every other count as it was.
pub proof fn lemma_glass_from_sand(c: Seq<u32>)
    requires
        4 < c.len(),
        15 < c.len(),
        c[4] >= 2,
        c[15] + 2 <= u32::MAX,
    ensures
        can_afford(c, recipe_book()[2].1),
        ({
            let after = added(consume(c, recipe_book()[2].1), recipe_book()[2].2.0, recipe_book()[2].2.1);
            &&& after.len() == c.len()
            &&& after[4] == c[4] - 2
            &&& after[15] == c[15] + 2
            &&& forall|k: int| 0 <= k < c.len() && k != 4 && k != 15 ==> after[k] == c[k]
        }),
{
    let ins = recipe_book()[2].1;
    assert(ins.len() == 1 && ins.last() == (BlockId(4), 2u32));
    assert(ins.drop_last() =~= Seq::<(BlockId, u32)>::empty());
    assert(consume(c, ins.drop_last()) == c);
    assert(consume(c, ins) == taken(c, BlockId(4), 2));
}

/// Crafting a recipe whose ingredients are all distinct block types takes
/// exactly each ingredient's amount, when the inventory can afford it.
pub proof fn lemma_consume_distinct(c: Seq<u32>, inputs: Seq<(BlockId, u32)>)
    requires
        can_afford(c, inputs),
        forall|a: int, b: int| 0 <= a < b < inputs.len() ==> inputs[a].0 != inputs[b].0,
    ensures
        forall|k: int|
            0 <= k < inputs.len() ==> count_in(consume(c, inputs), #[trigger] inputs[k].0) == count_in(
                c,
                inputs[k].0,
            ) - inputs[k].1,
        consume(c, inputs).len() == c.len(),
    decreases inputs.len(),
{
    if inputs.len() > 0 {
        let init = inputs.drop_last();
        assert forall|k: int| 0 <= k < init.len() implies count_in(c, #[trigger] init[k].0)
            >= init[k].1 by {
            assert(init[k] == inputs[k]);
        }
        lemma_consume_distinct(c, init);
        let last = inputs.last();
        let before = consume(c, init);
        assert(count_in(before, last.0) == count_in(c, last.0)) by {
            lemma_consume_other(c, init, last.0);
            assert forall|k: int| 0 <= k < init.len() implies #[trigger] init[k].0 != last.0 by {
                assert(init[k] == inputs[k]);
                assert(inputs[inputs.len() - 1] == last);
            }
        }
        assert(count_in(c, inputs[inputs.len() - 1].0) >= inputs[inputs.len() - 1].1);
        assert forall|k: int| 0 <= k < inputs.len() implies count_in(
            consume(c, inputs),
            #[trigger] inputs[k].0,
        ) == count_in(c, inputs[k].0) - inputs[k].1 by {
            if k < init.len() {
                assert(init[k] == inputs[k]);
                assert(inputs[k].0 != last.0) by {
                    assert(inputs[inputs.len() - 1] == last);
                }
            }
        }
    }
}

/// Taking ingredients leaves the count of a block type outside them as it
/// was.
proof fn lemma_consume_other(c: Seq<u32>, inputs: Seq<(BlockId, u32)>, id: BlockId)
    requires
        forall|k: int| 0 <= k < inputs.len() ==> #[trigger] inputs[k].0 != id,
    ensures
        count_in(consume(c, inputs), id) == count_in(c, id),
        consume(c, inputs).len() == c.len(),
    decreases inputs.len(),
{
    if inputs.len() > 0 {
        let init = inputs.drop_last();
        assert forall|k: int| 0 <= k < init.len() implies #[trigger] init[k].0 != id by {
            assert(init[k] == inputs[k]);
        }
        lemma_consume_other(c, init, id);
        assert(inputs[inputs.len() - 1].0 != id);
    }
}

} // verus!
