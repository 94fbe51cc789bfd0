//! Stepping through the states of a visualisation, forward and backward.
use vstd::prelude::*;

verus! {

/// Where a viewer stands among the states, and which way it last went.
#[derive(Clone, Copy, Debug, PartialEq, Eq, Structural)]
pub struct Playback {
    /// Number of states.
    pub len: usize,
    /// The state shown, below `len` unless there is no state.
    pub state: usize,
    /// Whether the last step went forward.
    pub forward: bool,
}

impl Playback {
    /// A viewer at the first of `len` states, going forward.
    pub fn new(len: usize) -> (r: Playback)
        ensures
            r == (Playback { len, state: 0, forward: true }),
    {
        Playback { len, state: 0, forward: true }
    }

    /// The state shown.
    pub fn get(&self) -> (r: usize)
        ensures
            r == self.state,
    {
        self.state
    }

    /// One state back, unless the first state is shown; from now on the
    /// viewer goes backward.
    pub fn prev(&mut self)
        ensures
            final(self).len == old(self).len,
            final(self).state == if old(self).state > 0 {
                (old(self).state - 1) as usize
            } else {
                0
            },
            !final(self).forward,
    {
        if self.state > 0 {
            self.state -= 1;
        }
        self.forward = false;
    }

    /// One state on, unless the last state is shown; from now on the viewer
    /// goes forward.
    pub fn next(&mut self)
        ensures
            final(self).len == old(self).len,
            final(self).state == if old(self).state < usize::MAX && old(self).state + 1 < old(
                self,
            ).len {
                (old(self).state + 1) as usize
            } else {
                old(self).state
            },
            final(self).forward,
    {
        if self.state < usize::MAX && self.state + 1 < self.len {
            self.state += 1;
        }
        self.forward = true;
    }

    /// What to do after the state shown was drawn. Where `drawn` holds, the
    /// picture stays: the result is `true` and nothing changes. Where the
    /// state drew nothing, the viewer moves one state on in the direction it
    /// was going, and the result says whether it is done: it is where it
    /// could not move, at either end.
    pub fn settle(&mut self, drawn: bool) -> (done: bool)
        ensures
            final(self).len == old(self).len,
            final(self).forward == old(self).forward,
            drawn ==> done && final(self).state == old(self).state,
            !drawn && old(self).forward ==> final(self).state == (if old(self).state < usize::MAX
                && old(self).state + 1 < old(self).len {
                (old(self).state + 1) as usize
            } else {
                old(self).state
            }),
            !drawn && !old(self).forward ==> final(self).state == (if old(self).state > 0 {
                (old(self).state - 1) as usize
            } else {
                0
            }),
            !drawn ==> (done <==> final(self).state == old(self).state),
    {
        if drawn {
            return true;
        }
        let before = self.state;
        if self.forward {
            self.next();
        } else {
            self.prev();
        }
        self.state == before
    }
}

} // verus!
