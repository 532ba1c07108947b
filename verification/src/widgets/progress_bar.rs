//! A configurable progress bar.
use vstd::prelude::*;

verus! {

/// What a progress bar is made of.
pub struct BarParts {
    pub done: u64,
    pub total: u64,
    pub width: usize,
    pub filled: char,
    pub empty: char,
}

/// A configurable progress bar: how much is done of how much, how many
/// cells the bar is wide, and the characters of its filled and empty cells.
pub struct ProgressBar {
    done: u64,
    total: u64,
    width: usize,
    filled: char,
    empty: char,
}

impl View for ProgressBar {
    type V = BarParts;

    closed spec fn view(&self) -> BarParts {
        BarParts {
            done: self.done,
            total: self.total,
            width: self.width,
            filled: self.filled,
            empty: self.empty,
        }
    }
}

impl ProgressBar {
    /// A bar of twenty cells, drawn with full and light blocks.
    pub fn new(done: u64, total: u64) -> (r: Self)
        ensures
            r@ == (BarParts { done, total, width: 20, filled: '█', empty: '░' }),
    {
        Self { done, total, width: 20, filled: '█', empty: '░' }
    }

    /// The same bar, `w` cells wide.
    pub fn width(self, w: usize) -> (r: Self)
        ensures
            r@ == (BarParts { width: w, ..self@ }),
    {
        let mut bar = self;
        bar.width = w;
        bar
    }

    /// The same bar, drawn with other characters.
    pub fn chars(self, filled: char, empty: char) -> (r: Self)
        ensures
            r@ == (BarParts { filled, empty, ..self@ }),
    {
        let mut bar = self;
        bar.filled = filled;
        bar.empty = empty;
        bar
    }

    /// What the bar is made of.
    pub fn parts(&self) -> (r: BarParts)
        ensures
            r == self@,
    {
        BarParts {
            done: self.done,
            total: self.total,
            width: self.width,
            filled: self.filled,
            empty: self.empty,
        }
    }
}

} // verus!
