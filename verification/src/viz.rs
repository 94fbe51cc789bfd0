//! What the three visualisations have in common.
use crate::canvas::{Canvas, Stroke};
use vstd::prelude::*;

verus! {

/// A sequence of states, each of which can be drawn as one frame.
pub trait Viz {
    /// The visualisation is well-formed and its frames fit on a canvas.
    spec fn drawable(&self) -> bool;

    /// Number of states.
    spec fn state_count(&self) -> nat;

    /// Width and height of the canvas that the frames are drawn on.
    spec fn size(&self) -> (nat, nat);

    /// What the frame of state `state` holds, stroke by stroke.
    spec fn frame_of(&self, state: int) -> Seq<Stroke>;

    /// Whether the frame of state `state` is one to show.
    spec fn shows(&self, state: int) -> bool;

    /// The size of the canvas that the frames are drawn on.
    fn canvas_size(&self) -> (r: (usize, usize))
        requires
            self.drawable(),
        ensures
            r.0 == self.size().0,
            r.1 == self.size().1,
    ;

    /// Number of states.
    fn num_states(&self) -> (r: usize)
        requires
            self.drawable(),
        ensures
            r == self.state_count(),
    ;

    /// Draws the frame of `state` on top of what the canvas holds. The
    /// result says whether the frame is one to show; where it is not, the
    /// state is passed over.
    fn draw(&self, state: usize, canvas: &mut Box<dyn Canvas>) -> (shown: bool)
        requires
            self.drawable(),
            state < self.state_count(),
        ensures
            shown == self.shows(state as int),
            final(canvas).strokes() == old(canvas).strokes() + self.frame_of(state as int),
    ;
}

} // verus!
