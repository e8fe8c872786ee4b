//! A body on the map, located by its coordinates.
use vstd::prelude::*;

use crate::Point;

verus! {

pub struct Body {
    pub x: i32,
    pub y: i32,
    pub blocking: bool,
}

impl Body {
    pub fn coordinates(&self) -> (r: Point)
        ensures
            r == (self.x, self.y),
    {
        (self.x, self.y)
    }
}

} // verus!
