//! How many frames a stream keeps ready and how many it prefetches URLs for.
use vstd::prelude::*;

verus! {

#[derive(Clone, Copy, Debug, PartialEq, Eq, Structural)]
pub struct WindowSizing {
    pub ready_data_frames: usize,
    pub url_prefetch_frames: usize,
}

#[derive(Clone, Copy, Debug, PartialEq, Eq, Structural)]
pub enum WindowSizingError {
    ZeroCapacity,
    ZeroFramesPerObject,
    FrameCountOverflow,
    InvalidRate,
}

impl WindowSizingError {
    pub fn message(&self) -> (text: &'static str)
        ensures
            text@ == match *self {
                WindowSizingError::ZeroCapacity => "frame capacity must be positive"@,
                WindowSizingError::ZeroFramesPerObject => "frames per object must be positive"@,
                WindowSizingError::FrameCountOverflow => "calculated frame count overflows usize"@,
                WindowSizingError::InvalidRate => "calculated frame rate is invalid"@,
            },
    {
        match self {
            WindowSizingError::ZeroCapacity => "frame capacity must be positive",
            WindowSizingError::ZeroFramesPerObject => "frames per object must be positive",
            WindowSizingError::FrameCountOverflow => "calculated frame count overflows usize",
            WindowSizingError::InvalidRate => "calculated frame rate is invalid",
        }
    }
}

} // verus!
