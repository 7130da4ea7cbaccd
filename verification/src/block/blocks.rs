//! Stable well-known block ids, matching the order of
//! [`BlockRegistry::with_defaults`](super::BlockRegistry::with_defaults).
#![allow(non_snake_case)]

use super::BlockId;
use vstd::prelude::*;

verus! {

pub fn AIR() -> (r: BlockId)
    ensures
        r == BlockId(0),
{
    BlockId(0)
}

pub fn GRASS() -> (r: BlockId)
    ensures
        r == BlockId(1),
{
    BlockId(1)
}

pub fn DIRT() -> (r: BlockId)
    ensures
        r == BlockId(2),
{
    BlockId(2)
}

pub fn STONE() -> (r: BlockId)
    ensures
        r == BlockId(3),
{
    BlockId(3)
}

pub fn SAND() -> (r: BlockId)
    ensures
        r == BlockId(4),
{
    BlockId(4)
}

pub fn WATER() -> (r: BlockId)
    ensures
        r == BlockId(5),
{
    BlockId(5)
}

pub fn TRUNK() -> (r: BlockId)
    ensures
        r == BlockId(6),
{
    BlockId(6)
}

pub fn LEAVES() -> (r: BlockId)
    ensures
        r == BlockId(7),
{
    BlockId(7)
}

pub fn SNOW() -> (r: BlockId)
    ensures
        r == BlockId(8),
{
    BlockId(8)
}

pub fn FLOWER_PINK() -> (r: BlockId)
    ensures
        r == BlockId(9),
{
    BlockId(9)
}

pub fn FLOWER_BLUE() -> (r: BlockId)
    ensures
        r == BlockId(10),
{
    BlockId(10)
}

pub fn PLANK() -> (r: BlockId)
    ensures
        r == BlockId(11),
{
    BlockId(11)
}

pub fn LANTERN() -> (r: BlockId)
    ensures
        r == BlockId(12),
{
    BlockId(12)
}

pub fn MUSHROOM() -> (r: BlockId)
    ensures
        r == BlockId(13),
{
    BlockId(13)
}

pub fn PUMPKIN() -> (r: BlockId)
    ensures
        r == BlockId(14),
{
    BlockId(14)
}

pub fn GLASS() -> (r: BlockId)
    ensures
        r == BlockId(15),
{
    BlockId(15)
}

pub fn COBBLE() -> (r: BlockId)
    ensures
        r == BlockId(16),
{
    BlockId(16)
}

pub fn PATH() -> (r: BlockId)
    ensures
        r == BlockId(17),
{
    BlockId(17)
}

pub fn CRYSTAL() -> (r: BlockId)
    ensures
        r == BlockId(18),
{
    BlockId(18)
}

pub fn TALL_GRASS() -> (r: BlockId)
    ensures
        r == BlockId(19),
{
    BlockId(19)
}

pub fn BERRY_BUSH() -> (r: BlockId)
    ensures
        r == BlockId(20),
{
    BlockId(20)
}

pub fn ROOF() -> (r: BlockId)
    ensures
        r == BlockId(21),
{
    BlockId(21)
}

pub fn COAL_ORE() -> (r: BlockId)
    ensures
        r == BlockId(22),
{
    BlockId(22)
}

} // verus!
