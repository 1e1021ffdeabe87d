//! The bursts of a frame pacer.
use vstd::prelude::*;

verus! {

#[derive(Clone, Copy, Debug, PartialEq, Eq, Structural)]
pub enum PacerError {
    ZeroBurst,
}

impl PacerError {
    pub fn message(&self) -> (text: &'static str)
        ensures
            text@ == "frame burst must be positive"@,
    {
        "frame burst must be positive"
    }
}

/// The most frames that a pacer lets through at once.
#[derive(Clone, Copy, Debug, PartialEq, Eq, Structural)]
pub struct FrameBurst {
    frames: u64,
}

impl FrameBurst {
    pub closed spec fn spec_frames(self) -> int {
        self.frames as int
    }

    pub open spec fn wf(self) -> bool {
        0 < self.spec_frames() <= u64::MAX
    }

    pub fn new(burst_frames: u64) -> (burst: Result<FrameBurst, PacerError>)
        ensures
            match burst {
                Ok(b) => b.wf() && b.spec_frames() == burst_frames,
                Err(e) => burst_frames == 0 && e == PacerError::ZeroBurst,
            },
    {
        if burst_frames == 0 {
            return Err(PacerError::ZeroBurst);
        }
        Ok(FrameBurst { frames: burst_frames })
    }

    pub fn frames(&self) -> (frames: u64)
        ensures
            frames == self.spec_frames(),
    {
        self.frames
    }

    /// The next segment to wait for while `remaining` frames are owed.
    pub fn segment(&self, remaining: u64) -> (segment: u64)
        requires
            self.wf(),
        ensures
            segment == if remaining <= self.spec_frames() {
                remaining as int
            } else {
                self.spec_frames()
            },
            remaining > 0 ==> segment > 0,
    {
        if remaining <= self.frames {
            remaining
        } else {
            self.frames
        }
    }
}

} // verus!
