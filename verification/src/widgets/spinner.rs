//! A frame-based spinner animation.
use vstd::prelude::*;

verus! {

/// A frame-based spinner animation.
///
/// Call [`Spinner::tick`] once per render frame and [`Spinner::frame`] to
/// get the current frame.
pub struct Spinner {
    frames: &'static [&'static str],
    index: usize,
}

impl Spinner {
    #[verifier::type_invariant]
    spec fn in_range(self) -> bool {
        self.index < self.frames@.len()
    }

    /// The animation's frames, in order.
    pub closed spec fn frames(self) -> Seq<&'static str> {
        self.frames@
    }

    /// The position of the current frame.
    pub closed spec fn position(self) -> nat {
        self.index as nat
    }

    /// Braille dot spinner (the most common choice).
    pub fn dots() -> (r: Self)
        ensures
            r.position() == 0,
            r.frames() == seq!["⠋", "⠙", "⠹", "⠸", "⠼", "⠴", "⠦", "⠧", "⠇", "⠏"],
    {
        let frames: &'static [&'static str] = &["⠋", "⠙", "⠹", "⠸", "⠼", "⠴", "⠦", "⠧", "⠇", "⠏"];
        assert(frames@ =~= seq!["⠋", "⠙", "⠹", "⠸", "⠼", "⠴", "⠦", "⠧", "⠇", "⠏"]);
        Self { frames, index: 0 }
    }

    /// Classic line spinner.
    pub fn line() -> (r: Self)
        ensures
            r.position() == 0,
            r.frames() == seq!["|", "/", "-", "\\"],
    {
        let frames: &'static [&'static str] = &["|", "/", "-", "\\"];
        assert(frames@ =~= seq!["|", "/", "-", "\\"]);
        Self { frames, index: 0 }
    }

    /// Arrow spinner.
    pub fn arrow() -> (r: Self)
        ensures
            r.position() == 0,
            r.frames() == seq!["←", "↖", "↑", "↗", "→", "↘", "↓", "↙"],
    {
        let frames: &'static [&'static str] = &["←", "↖", "↑", "↗", "→", "↘", "↓", "↙"];
        assert(frames@ =~= seq!["←", "↖", "↑", "↗", "→", "↘", "↓", "↙"]);
        Self { frames, index: 0 }
    }

    /// Custom frames, of which there is at least one.
    pub fn custom(frames: &'static [&'static str]) -> (r: Self)
        requires
            frames@.len() > 0,
        ensures
            r.position() == 0,
            r.frames() == frames@,
    {
        Self { frames, index: 0 }
    }

    /// Advance to the next frame; behind the last frame comes the first.
    pub fn tick(&mut self)
        ensures
            final(self).frames() == old(self).frames(),
            final(self).position() == (old(self).position() + 1) % (old(self).frames().len() as int) as nat,
    {
        proof {
            use_type_invariant(&*self);
        }
        let count = self.frames.len();
        self.index = (self.index + 1) % count;
    }

    /// Current frame string.
    pub fn frame(&self) -> (r: &'static str)
        ensures
            self.position() < self.frames().len(),
            r == self.frames()[self.position() as int],
    {
        proof {
            use_type_invariant(self);
        }
        self.frames[self.index]
    }
}

impl Default for Spinner {
    fn default() -> (r: Self)
        ensures
            r.position() == 0,
            r.frames() == seq!["⠋", "⠙", "⠹", "⠸", "⠼", "⠴", "⠦", "⠧", "⠇", "⠏"],
    {
        Self::dots()
    }
}

} // verus!
