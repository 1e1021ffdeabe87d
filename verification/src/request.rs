//! What a reader asks for: objects, their keys, and a range of frames.
use std::ops::Range;

use vstd::prelude::*;

verus! {

#[derive(Debug, PartialEq, Eq, Hash)]
pub struct ObjectId(String);

impl View for ObjectId {
    type V = Seq<char>;

    closed spec fn view(&self) -> Seq<char> {
        self.0@
    }
}

impl Clone for ObjectId {
    fn clone(&self) -> (copy: Self)
        ensures
            copy == *self,
    {
        ObjectId(self.0.clone())
    }
}

impl ObjectId {
    pub fn new(value: &str) -> (id: ObjectId)
        ensures
            id@ == value@,
    {
        ObjectId(value.to_owned())
    }

    pub fn as_str(&self) -> (value: &str)
        ensures
            value@ == self@,
    {
        self.0.as_str()
    }
}

/// The key of one object. It must not be reused for another object.
#[derive(PartialEq, Eq)]
pub struct DecryptKey([u8; 32]);

impl View for DecryptKey {
    type V = Seq<u8>;

    closed spec fn view(&self) -> Seq<u8> {
        self.0@
    }
}

impl Clone for DecryptKey {
    fn clone(&self) -> (copy: Self)
        ensures
            copy == *self,
    {
        DecryptKey(self.0)
    }
}

impl DecryptKey {
    pub fn new(bytes: [u8; 32]) -> (key: DecryptKey)
        ensures
            key@ == bytes@,
    {
        DecryptKey(bytes)
    }

    pub(crate) fn as_bytes(&self) -> (bytes: &[u8; 32])
        ensures
            bytes@ == self@,
    {
        &self.0
    }

    /// How a key shows itself: its bytes never appear.
    pub fn debug_text(&self) -> (text: &'static str)
        ensures
            text@ == "DecryptKey([REDACTED])"@,
    {
        "DecryptKey([REDACTED])"
    }
}

#[derive(PartialEq, Eq)]
pub struct ObjectMeta {
    pub id: ObjectId,
    pub uri: String,
    pub frame_count: u32,
    /// This key must not be reused for another object.
    pub decrypt_key: DecryptKey,
}

impl Clone for ObjectMeta {
    fn clone(&self) -> (copy: Self)
        ensures
            copy == *self,
    {
        ObjectMeta {
            id: self.id.clone(),
            uri: self.uri.clone(),
            frame_count: self.frame_count,
            decrypt_key: self.decrypt_key.clone(),
        }
    }
}

/// A non-empty range of global frame numbers.
#[derive(Debug, PartialEq, Eq)]
pub struct StreamRequest {
    frames: Range<u64>,
}

impl Clone for StreamRequest {
    fn clone(&self) -> (copy: Self)
        ensures
            copy == *self,
    {
        StreamRequest { frames: self.frames.start..self.frames.end }
    }
}

impl StreamRequest {
    pub closed spec fn start(self) -> int {
        self.frames.start as int
    }

    pub closed spec fn end(self) -> int {
        self.frames.end as int
    }

    /// A request is never empty.
    pub open spec fn wf(self) -> bool {
        0 <= self.start() < self.end() <= u64::MAX
    }

    pub fn new(frames: Range<u64>) -> (request: Result<StreamRequest, RequestError>)
        ensures
            match request {
                Ok(r) => r.wf() && r.start() == frames.start && r.end() == frames.end,
                Err(e) => frames.start >= frames.end && e == RequestError::EmptyFrameRange,
            },
    {
        if frames.start >= frames.end {
            return Err(RequestError::EmptyFrameRange);
        }
        Ok(StreamRequest { frames })
    }

    pub fn frames(&self) -> (frames: Range<u64>)
        ensures
            frames.start == self.start(),
            frames.end == self.end(),
    {
        self.frames.start..self.frames.end
    }

    pub fn frame_count(&self) -> (count: u64)
        requires
            self.wf(),
        ensures
            count == self.end() - self.start(),
    {
        self.frames.end - self.frames.start
    }
}

#[derive(Clone, Copy, Debug, PartialEq, Eq, Structural)]
pub enum RequestError {
    EmptyFrameRange,
    InvalidFrameRate,
}

impl RequestError {
    pub fn message(&self) -> (text: &'static str)
        ensures
            text@ == match *self {
                RequestError::EmptyFrameRange => "frame range must not be empty"@,
                RequestError::InvalidFrameRate => "frame rate must be finite and positive"@,
            },
    {
        match self {
            RequestError::EmptyFrameRange => "frame range must not be empty",
            RequestError::InvalidFrameRate => "frame rate must be finite and positive",
        }
    }
}

} // verus!
