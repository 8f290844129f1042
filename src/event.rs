//! What the input source asks of the game between two frames.
use vstd::prelude::*;

verus! {

#[derive(Clone, Copy, Debug, PartialEq, Eq, Structural)]
pub enum MyEvent {
    /// Nothing to do.
    Idle,
    /// Close the game.
    Exit,
    /// Switch the view that shows every cell's truth on or off.
    Debug,
}

} // verus!
