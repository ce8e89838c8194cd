//! The status line that shows the last load error for a bounded number of
//! frames.
use vstd::prelude::*;

verus! {

/// Frames during which a load error stays on screen.
pub const ERROR_FRAMES: u32 = 200;

/// A message and the number of frames it has left on screen. A message
/// with no frames left is empty.
pub struct StatusLine {
    message: String,
    frames_left: u32,
}

impl StatusLine {
    /// The message shown and the frames it has left.
    pub closed spec fn view(&self) -> (Seq<char>, nat) {
        (self.message@, self.frames_left as nat)
    }

    #[verifier::type_invariant]
    spec fn inv(&self) -> bool {
        self.frames_left == 0 ==> self.message@.len() == 0
    }

    /// An empty status line.
    pub fn new() -> (r: Self)
        ensures
            r.view() == (Seq::<char>::empty(), 0nat),
    {
        StatusLine { message: String::new(), frames_left: 0 }
    }

    /// Shows `message` for the next `ERROR_FRAMES` frames.
    pub fn report_error(&mut self, message: String)
        ensures
            final(self).view() == (message@, ERROR_FRAMES as nat),
    {
        *self = StatusLine { message, frames_left: ERROR_FRAMES };
    }

    /// Clears the line at once, as a successful load does.
    pub fn clear(&mut self)
        ensures
            final(self).view() == (Seq::<char>::empty(), 0nat),
    {
        *self = StatusLine::new();
    }

    /// Advances one frame: a message that was on its last frame is cleared,
    /// another one loses a frame, an empty line stays as it is.
    pub fn tick(&mut self)
        ensures
            old(self).view().1 == 0 ==> final(self).view() == old(self).view(),
            old(self).view().1 == 1 ==> final(self).view() == (Seq::<char>::empty(), 0nat),
            old(self).view().1 > 1 ==> final(self).view() == (old(self).view().0, (old(
                self,
            ).view().1 - 1) as nat),
    {
        if self.frames_left == 1 {
            self.message = String::new();
            self.frames_left = 0;
        } else if self.frames_left > 1 {
            let left = self.frames_left - 1;
            self.frames_left = left;
        }
    }

    /// The text to show; empty when no frames are left.
    pub fn message(&self) -> (r: &str)
        ensures
            r@ == self.view().0,
            self.view().1 == 0 ==> r@.len() == 0,
    {
        proof {
            use_type_invariant(self);
        }
        self.message.as_str()
    }

    pub fn frames_left(&self) -> (r: u32)
        ensures
            r as nat == self.view().1,
    {
        self.frames_left
    }
}

} // verus!
