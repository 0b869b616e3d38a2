//! Animated spinner for the refresh indicator.

use vstd::prelude::*;

verus! {

/// Number of animation frames.
pub const FRAME_COUNT: usize = 10;

/// The braille animation frame shown at a given position.
pub open spec fn spec_frame(i: int) -> char {
    if i == 0 {
        '\u{280B}'
    } else if i == 1 {
        '\u{2819}'
    } else if i == 2 {
        '\u{2839}'
    } else if i == 3 {
        '\u{2838}'
    } else if i == 4 {
        '\u{283C}'
    } else if i == 5 {
        '\u{2834}'
    } else if i == 6 {
        '\u{2826}'
    } else if i == 7 {
        '\u{2827}'
    } else if i == 8 {
        '\u{2807}'
    } else {
        '\u{280F}'
    }
}

pub struct Spinner {
    frame: usize,
}

impl Spinner {
    /// Which frame the spinner currently shows.
    pub closed spec fn frame_index(&self) -> int {
        self.frame as int
    }

    pub open spec fn wf(&self) -> bool {
        0 <= self.frame_index() < FRAME_COUNT
    }

    pub fn new() -> (s: Spinner)
        ensures
            s.wf(),
            s.frame_index() == 0,
    {
        Spinner { frame: 0 }
    }

    pub fn tick(&mut self)
        requires
            old(self).wf(),
        ensures
            final(self).wf(),
            final(self).frame_index() == (old(self).frame_index() + 1) % (FRAME_COUNT as int),
    {
        self.frame = (self.frame + 1) % FRAME_COUNT;
    }

    pub fn reset(&mut self)
        ensures
            final(self).wf(),
            final(self).frame_index() == 0,
    {
        self.frame = 0;
    }

    pub fn current(&self) -> (c: char)
        requires
            self.wf(),
        ensures
            c == spec_frame(self.frame_index()),
    {
        if self.frame == 0 {
            '\u{280B}'
        } else if self.frame == 1 {
            '\u{2819}'
        } else if self.frame == 2 {
            '\u{2839}'
        } else if self.frame == 3 {
            '\u{2838}'
        } else if self.frame == 4 {
            '\u{283C}'
        } else if self.frame == 5 {
            '\u{2834}'
        } else if self.frame == 6 {
            '\u{2826}'
        } else if self.frame == 7 {
            '\u{2827}'
        } else if self.frame == 8 {
            '\u{2807}'
        } else {
            '\u{280F}'
        }
    }
}

} // verus!
