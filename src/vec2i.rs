use vstd::prelude::*;

verus! {

/// A signed integer grid coordinate, used both as an absolute cell position
/// and as an offset.
#[derive(Clone, Copy, PartialEq, Eq, Structural, Debug)]
pub struct Vec2i {
    pub x: i32,
    pub y: i32,
}

impl Vec2i {
    pub fn new(x: i32, y: i32) -> (r: Vec2i)
        ensures
            r.x == x,
            r.y == y,
    {
        Vec2i { x, y }
    }

    pub fn splat(v: i32) -> (r: Vec2i)
        ensures
            r.x == v,
            r.y == v,
    {
        Vec2i { x: v, y: v }
    }
}

} // verus!
