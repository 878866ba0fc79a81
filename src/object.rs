//! What a scene object offers to the code that runs a scene.
use vstd::prelude::*;

verus! {

/// Something that can be drawn and can collide.
pub trait PhysicalObject {
    fn draw(&self);

    fn is_colliding(&self);
}

} // verus!
