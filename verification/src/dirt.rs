//! A bare dirt block, tracked by its remaining amount alone.
//!
//! This is the reduced form of a cell used where only the amount of dirt
//! matters; zero means the block is gone.

use vstd::prelude::*;
use vstd::string::StringExecFns;

verus! {

/// A dirt block holding the amount of dirt left; zero is empty.
#[derive(Clone, Copy, PartialEq, Eq, Debug, Structural)]
pub struct Dirt(pub u8);

impl Dirt {
    /// A block with no dirt at all.
    pub fn empty() -> (r: Self)
        ensures
            r.0 == 0,
    {
        Self(0)
    }

    /// A block with a uniformly random amount of dirt; used only by world
    /// generation.
    pub fn random() -> (r: Self) {
        Self(rand::random::<u8>())
    }

    /// Digs one unit out of the block; an empty block stays empty.
    pub fn dig(&mut self)
        ensures
            final(self).0 == (if old(self).0 > 0 {
                old(self).0 - 1
            } else {
                0int
            }),
    {
        if self.0 > 0 {
            self.0 = self.0 - 1;
        }
    }

    /// True once no dirt is left.
    pub fn is_empty(&self) -> (r: bool)
        ensures
            r == (self.0 == 0),
    {
        self.0 == 0
    }

    /// The tile image for the block: nothing when empty, a full tile while
    /// more than half the dirt remains, a half tile otherwise.
    pub fn texture_path(&self) -> (r: Option<String>)
        ensures
            self.0 == 0 <==> r is None,
            self.0 > 127 ==> r is Some && r->0@ == "dirt/full.png"@,
            0 < self.0 <= 127 ==> r is Some && r->0@ == "dirt/half.png"@,
    {
        if self.0 == 0 {
            None
        } else if self.0 > 127 {
            Some(String::from_str("dirt/full.png"))
        } else {
            Some(String::from_str("dirt/half.png"))
        }
    }
}

} // verus!
