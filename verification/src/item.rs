//! The items to be packed.
use vstd::prelude::*;

verus! {

/// A rectangular item of `width` by `height`, belonging to customer `client`.
#[derive(Clone, Copy, Debug, PartialEq, Eq, Structural)]
pub struct Item {
    pub height: u32,
    pub width: u32,
    pub client: u32,
}

impl Item {
    pub fn new(height: u32, width: u32, client: u32) -> (r: Self)
        ensures
            r == (Item { height, width, client }),
    {
        Item { height, width, client }
    }

    /// The footprint of the item: turned by 90 degrees when `rotated`.
    pub open spec fn dims(self, rotated: bool) -> (u32, u32) {
        if rotated {
            (self.height, self.width)
        } else {
            (self.width, self.height)
        }
    }
}

} // verus!
