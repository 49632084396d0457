use vstd::prelude::*;

verus! {

/// One square of a height map: a plain elevation `0 ..= 25`, or one of the two
/// marked squares (the start, at the lowest elevation, and the end, at the
/// highest).
#[derive(Clone, Copy, Debug, PartialEq, Eq, Structural)]
pub enum Height {
    Height(u32),
    Start,
    End,
}

impl Height {
    /// The elevation this square stands at.
    pub open spec fn spec_height(self) -> u32 {
        match self {
            Height::Height(h) => h,
            Height::Start => 0,
            Height::End => 25,
        }
    }

    pub fn height(self) -> (r: u32)
        ensures
            r == self.spec_height(),
    {
        match self {
            Height::Height(height) => height,
            Height::Start => 0,
            Height::End => 25,
        }
    }
}

} // verus!
