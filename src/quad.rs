use vstd::prelude::*;

verus! {

/// A four-sided face, its corners given in winding order.
#[derive(Clone, Copy, Debug, PartialEq, Eq, Structural)]
pub struct Quad<T> {
    pub x: T,
    pub y: T,
    pub z: T,
    pub w: T,
}

impl<T> Quad<T> {
    /// Builds a quad from its four corners, in order.
    pub fn new(x: T, y: T, z: T, w: T) -> (r: Quad<T>)
        ensures
            r == (Quad { x, y, z, w }),
    {
        Quad { x, y, z, w }
    }
}

} // verus!
