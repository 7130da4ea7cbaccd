//! What a swept move of a box through the voxel world ran into.

use vstd::prelude::*;

verus! {

/// Which faces the box was blocked against during a move.
#[derive(Clone, Copy, Debug, PartialEq, Eq, Structural)]
pub struct CollisionFlags {
    pub neg_x: bool,
    pub pos_x: bool,
    pub neg_y: bool,
    pub pos_y: bool,
    pub neg_z: bool,
    pub pos_z: bool,
}

impl Default for CollisionFlags {
    fn default() -> (r: Self)
        ensures
            !r.neg_x && !r.pos_x && !r.neg_y && !r.pos_y && !r.neg_z && !r.pos_z,
    {
        CollisionFlags { neg_x: false, pos_x: false, neg_y: false, pos_y: false, neg_z: false, pos_z: false }
    }
}

impl CollisionFlags {
    /// Standing on the ground this frame.
    pub fn on_ground(self) -> (r: bool)
        ensures
            r == self.neg_y,
    {
        self.neg_y
    }

    /// Bumped a ceiling.
    pub fn hit_ceiling(self) -> (r: bool)
        ensures
            r == self.pos_y,
    {
        self.pos_y
    }

    /// Blocked by a wall on any horizontal side.
    pub fn hit_wall(self) -> (r: bool)
        ensures
            r == (self.neg_x || self.pos_x || self.neg_z || self.pos_z),
    {
        self.neg_x || self.pos_x || self.neg_z || self.pos_z
    }
}

} // verus!
