//! Byte-granular reading over frames: which frames a byte range needs, and
//! what of them is handed on.
use std::ops::Range;

use bytes::Bytes;
use vstd::prelude::*;

use crate::buffer::{contents, slice_bytes};
use crate::frame::TAG_SIZE;
use crate::join::{joined, lemma_joined_cut};
use crate::request::{RequestError, StreamRequest};
use crate::stream::at_most;

verus! {

#[derive(Clone, Copy, Debug, PartialEq, Eq, Structural)]
pub enum ByteError {
    EmptyRange,
    InvalidRate,
    FrameTooSmall,
    ZeroFramesPerObject,
}

impl ByteError {
    pub fn message(&self) -> (text: &'static str)
        ensures
            text@ == match *self {
                ByteError::EmptyRange => "byte range must not be empty"@,
                ByteError::InvalidRate => "byte rate must be finite and positive"@,
                ByteError::FrameTooSmall => "frame size must be greater than the 16-byte tag"@,
                ByteError::ZeroFramesPerObject => "frames per object must be positive"@,
            },
    {
        match self {
            ByteError::EmptyRange => "byte range must not be empty",
            ByteError::InvalidRate => "byte rate must be finite and positive",
            ByteError::FrameTooSmall => "frame size must be greater than the 16-byte tag",
            ByteError::ZeroFramesPerObject => "frames per object must be positive",
        }
    }
}

/// The first number of blocks of `size` that reaches `n`.
pub open spec fn ceil_div(n: int, size: int) -> int {
    if n % size == 0 { n / size } else { n / size + 1 }
}

/// `n` divided by `size`, rounded up.
pub fn div_ceil(n: u64, size: u64) -> (blocks: u64)
    requires
        size > 0,
    ensures
        blocks == ceil_div(n as int, size as int),
        blocks * size >= n,
        blocks * size < n + size,
        blocks <= n,
{
    let full: u64 = n / size;
    proof {
        vstd::arithmetic::div_mod::lemma_fundamental_div_mod(n as int, size as int);
        assert(full * size == size * full) by (nonlinear_arith);
        assert((full + 1) * size == size * full + size) by (nonlinear_arith);
        assert(full <= n) by (nonlinear_arith)
            requires
                n == size * full + n as int % size as int,
                n as int % size as int >= 0,
                size > 0,
                full >= 0,
        ;
        if n as int % size as int > 0 {
            assert(full < n) by (nonlinear_arith)
                requires
                    n == size * full + n as int % size as int,
                    n as int % size as int > 0,
                    size > 0,
                    full >= 0,
            ;
        }
    }
    if n % size == 0 {
        full
    } else {
        full + 1
    }
}

/// A non-empty range of plaintext bytes.
#[derive(Debug, PartialEq, Eq)]
pub struct ByteRequest {
    bytes: Range<u64>,
}

impl ByteRequest {
    pub closed spec fn start(self) -> int {
        self.bytes.start as int
    }

    pub closed spec fn end(self) -> int {
        self.bytes.end as int
    }

    pub open spec fn wf(self) -> bool {
        0 <= self.start() < self.end() <= u64::MAX
    }

    pub fn new(bytes: Range<u64>) -> (request: Result<ByteRequest, ByteError>)
        ensures
            match request {
                Ok(r) => r.wf() && r.start() == bytes.start && r.end() == bytes.end,
                Err(e) => bytes.start >= bytes.end && e == ByteError::EmptyRange,
            },
    {
        if bytes.start >= bytes.end {
            return Err(ByteError::EmptyRange);
        }
        Ok(ByteRequest { bytes })
    }

    pub fn bytes(&self) -> (bytes: Range<u64>)
        ensures
            bytes.start == self.start(),
            bytes.end == self.end(),
    {
        self.bytes.start..self.bytes.end
    }

    /// The frames that hold the bytes.
    pub fn frame_request(&self, payload_size: usize) -> (request: Result<
        StreamRequest,
        RequestError,
    >)
        requires
            self.wf(),
            payload_size > 0,
        ensures
            request matches Ok(r) && r.wf() && r.start() == self.start() / payload_size as int
                && r.end() == ceil_div(self.end(), payload_size as int),
    {
        let size: u64 = payload_size as u64;
        let first: u64 = self.bytes.start / size;
        let end: u64 = div_ceil(self.bytes.end, size);
        proof {
            vstd::arithmetic::div_mod::lemma_fundamental_div_mod(
                self.bytes.start as int,
                size as int,
            );
            assert(first < end) by (nonlinear_arith)
                requires
                    self.bytes.start == size * first + self.bytes.start as int % size as int,
                    self.bytes.start as int % size as int >= 0,
                    self.bytes.start < self.bytes.end <= end * size,
                    size > 0,
            ;
        }
        StreamRequest::new(first..end)
    }
}

/// The sizes of a byte stream: frames on the wire, and frames of one object.
#[derive(Clone, Copy, Debug, PartialEq, Eq, Structural)]
pub struct ByteStreamConfig {
    frame_size: usize,
    frames_per_object: u32,
}

impl ByteStreamConfig {
    pub closed spec fn spec_frame_size(self) -> int {
        self.frame_size as int
    }

    pub closed spec fn spec_frames_per_object(self) -> int {
        self.frames_per_object as int
    }

    pub open spec fn wf(self) -> bool {
        &&& TAG_SIZE < self.spec_frame_size() <= usize::MAX
        &&& 0 < self.spec_frames_per_object() <= u32::MAX
    }

    pub fn new(frame_size: usize, frames_per_object: u32) -> (config: Result<
        ByteStreamConfig,
        ByteError,
    >)
        ensures
            match config {
                Ok(c) => {
                    &&& c.wf()
                    &&& c.spec_frame_size() == frame_size
                    &&& c.spec_frames_per_object() == frames_per_object
                },
                Err(e) => {
                    &&& frame_size <= TAG_SIZE || frames_per_object == 0
                    &&& e == if frame_size <= TAG_SIZE {
                        ByteError::FrameTooSmall
                    } else {
                        ByteError::ZeroFramesPerObject
                    }
                },
            },
    {
        if frame_size <= TAG_SIZE {
            return Err(ByteError::FrameTooSmall);
        }
        if frames_per_object == 0 {
            return Err(ByteError::ZeroFramesPerObject);
        }
        Ok(ByteStreamConfig { frame_size, frames_per_object })
    }

    pub fn frame_size(&self) -> (size: usize)
        ensures
            size == self.spec_frame_size(),
    {
        self.frame_size
    }

    pub fn frames_per_object(&self) -> (frames: u32)
        ensures
            frames == self.spec_frames_per_object(),
    {
        self.frames_per_object
    }

    pub fn payload_size(&self) -> (size: usize)
        requires
            self.wf(),
        ensures
            size == self.spec_frame_size() - TAG_SIZE,
    {
        self.frame_size - TAG_SIZE
    }
}

/// What is still to be cut: bytes to skip, then bytes to hand on.
pub struct ClipView {
    pub skip: int,
    pub remaining: int,
}

impl ClipView {
    pub open spec fn wf(self) -> bool {
        0 <= self.skip && 0 <= self.remaining
    }

    /// What of a stretch of `len` bytes is skipped.
    pub open spec fn cut(self, len: int) -> int {
        at_most(self.skip, len)
    }

    /// What of a stretch of `len` bytes is handed on.
    pub open spec fn kept(self, len: int) -> int {
        at_most(self.remaining, len - self.cut(len))
    }

    /// The part of a stretch of bytes that is handed on.
    pub open spec fn clipped(self, bytes: Seq<u8>) -> Seq<u8> {
        let len = bytes.len() as int;
        bytes.subrange(self.cut(len), self.cut(len) + self.kept(len))
    }

    /// What is still to be cut after a stretch of `len` bytes.
    pub open spec fn after(self, len: int) -> ClipView {
        ClipView { skip: self.skip - self.cut(len), remaining: self.remaining - self.kept(len) }
    }
}

/// The clips of the frames, one after the other.
pub open spec fn clips(clip: ClipView, frames: Seq<Seq<u8>>) -> Seq<Seq<u8>> {
    Seq::new(
        frames.len(),
        |k: int| clip.after(joined(frames.take(k)).len() as int).clipped(frames[k]),
    )
}

/// Hands on `remaining` bytes after skipping the first `skip`.
#[derive(Clone, Copy, Debug, PartialEq, Eq, Structural)]
pub struct ByteClipper {
    skip: usize,
    remaining: u64,
}

impl View for ByteClipper {
    type V = ClipView;

    closed spec fn view(&self) -> ClipView {
        ClipView { skip: self.skip as int, remaining: self.remaining as int }
    }
}

impl ByteClipper {
    pub fn new(skip: usize, length: u64) -> (clipper: ByteClipper)
        ensures
            clipper@ == (ClipView { skip: skip as int, remaining: length as int }),
            clipper@.wf(),
    {
        ByteClipper { skip, remaining: length }
    }

    /// The clipper of a byte range over frames with the given payload.
    pub fn for_request(request: &ByteRequest, payload_size: usize) -> (clipper: ByteClipper)
        requires
            request.wf(),
            payload_size > 0,
        ensures
            clipper@ == request_clip(*request, payload_size as int),
            clipper@.wf(),
    {
        let bytes: Range<u64> = request.bytes();
        ByteClipper {
            skip: (bytes.start % payload_size as u64) as usize,
            remaining: bytes.end - bytes.start,
        }
    }

    /// The part of the next frame that is handed on.
    pub fn clip(&mut self, frame: Bytes) -> (part: Bytes)
        ensures
            contents(part) == old(self)@.clipped(contents(frame)),
            final(self)@ == old(self)@.after(contents(frame).len() as int),
    {
        let len: usize = frame.len();
        let start: usize = if self.skip <= len { self.skip } else { len };
        self.skip = self.skip - start;
        let room: usize = len - start;
        let kept: usize = if self.remaining <= room as u64 {
            self.remaining as usize
        } else {
            room
        };
        self.remaining = self.remaining - kept as u64;
        slice_bytes(&frame, start, start + kept)
    }
}

/// The clip of a byte range over frames with the given payload.
pub open spec fn request_clip(request: ByteRequest, payload_size: int) -> ClipView {
    ClipView {
        skip: request.start() % payload_size,
        remaining: request.end() - request.start(),
    }
}

/// Clipping frame by frame hands on what clipping the whole would.
pub proof fn law_clips_join(clip: ClipView, frames: Seq<Seq<u8>>)
    requires
        clip.wf(),
    ensures
        joined(clips(clip, frames)) == clip.clipped(joined(frames)),
    decreases frames.len(),
{
    if frames.len() == 0 {
        assert(joined(clips(clip, frames)) =~= clip.clipped(joined(frames)));
    } else {
        let shorter = frames.drop_last();
        let n = frames.len() - 1;
        assert forall|k: int| 0 <= k < n implies #[trigger] frames.take(k) == shorter.take(k) by {
            assert(frames.take(k) =~= shorter.take(k));
        }
        assert(clips(clip, frames).drop_last() =~= clips(clip, shorter));
        assert(frames.take(n) =~= shorter);
        law_clips_join(clip, shorter);
        let head = joined(shorter);
        let last = frames.last();
        assert(joined(frames) == head + last);
        assert(clip.clipped(head + last) =~= clip.clipped(head) + clip.after(
            head.len() as int,
        ).clipped(last));
    }
}

/// The range promise: reading the frames of a byte range, and clipping them,
/// hands on exactly the requested bytes of the whole.
pub proof fn law_byte_range_is_exact(
    whole: Seq<u8>,
    request: ByteRequest,
    payload_size: int,
    frames: Seq<Seq<u8>>,
)
    requires
        request.wf(),
        payload_size > 0,
        frames.len() == ceil_div(request.end(), payload_size) - request.start() / payload_size,
        ceil_div(request.end(), payload_size) * payload_size <= whole.len(),
        forall|k: int|
            0 <= k < frames.len() ==> #[trigger] frames[k] == whole.subrange(
                (request.start() / payload_size + k) * payload_size,
                (request.start() / payload_size + k + 1) * payload_size,
            ),
    ensures
        request.end() <= whole.len(),
        joined(clips(request_clip(request, payload_size), frames)) == whole.subrange(
            request.start(),
            request.end(),
        ),
{
    let first = request.start() / payload_size;
    let end = ceil_div(request.end(), payload_size);
    let clip = request_clip(request, payload_size);
    vstd::arithmetic::div_mod::lemma_fundamental_div_mod(request.start(), payload_size);
    vstd::arithmetic::div_mod::lemma_fundamental_div_mod(request.end(), payload_size);
    assert(0 <= first) by (nonlinear_arith)
        requires
            first == request.start() / payload_size,
            request.start() >= 0,
            payload_size > 0,
    ;
    assert(first * payload_size == payload_size * first) by (nonlinear_arith);
    let q = request.end() / payload_size;
    assert((q + 1) * payload_size == payload_size * q + payload_size) by (nonlinear_arith);
    assert(q * payload_size == payload_size * q) by (nonlinear_arith);
    lemma_joined_cut(whole, frames, first, payload_size);
    law_clips_join(clip, frames);
    assert(clip.clipped(joined(frames)) =~= whole.subrange(request.start(), request.end()));
}

/// The clip promise: of any bytes a clip hands on those behind the ones that it
/// skips, as many as it has left; and it has that much less to skip and to hand on
/// afterwards.
pub proof fn law_clips_hand_on_their_stretch(clip: ClipView, bytes: Seq<u8>)
    requires
        clip.wf(),
    ensures
        ({
            let len = bytes.len() as int;
            let start = if clip.skip <= len {
                clip.skip
            } else {
                len
            };
            let end = if clip.skip + clip.remaining <= len {
                clip.skip + clip.remaining
            } else {
                len
            };
            let rest = clip.after(len);
            &&& clip.clipped(bytes) == bytes.subrange(start, if start <= end {
                end
            } else {
                start
            })
            &&& rest.skip + start == clip.skip
            &&& rest.remaining + clip.clipped(bytes).len() == clip.remaining
        }),
{
}

/// The rounding promise: whole blocks cover everything, and one block less does
/// not.
pub proof fn law_blocks_cover(n: int, size: int)
    requires
        0 <= n,
        0 < size,
    ensures
        n <= ceil_div(n, size) * size,
        (ceil_div(n, size) - 1) * size < n,
{
    vstd::arithmetic::div_mod::lemma_fundamental_div_mod(n, size);
    let q = n / size;
    assert(q * size == size * q) by (nonlinear_arith);
    assert((q + 1) * size == size * q + size) by (nonlinear_arith);
    assert((q - 1) * size == size * q - size) by (nonlinear_arith);
}

/// The frames of a byte range hold all of it, and each of them some of it.
pub proof fn law_range_frames_are_needed(request: ByteRequest, payload_size: int)
    requires
        request.wf(),
        payload_size > 0,
    ensures
        ({
            let first = request.start() / payload_size;
            let end = ceil_div(request.end(), payload_size);
            &&& first * payload_size <= request.start() < (first + 1) * payload_size
            &&& (end - 1) * payload_size < request.end() <= end * payload_size
        }),
{
    let first = request.start() / payload_size;
    law_blocks_cover(request.end(), payload_size);
    vstd::arithmetic::div_mod::lemma_fundamental_div_mod(request.start(), payload_size);
    assert(first * payload_size <= request.start() < (first + 1) * payload_size)
        by (nonlinear_arith)
        requires
            request.start() == payload_size * first + request.start() % payload_size,
            0 <= request.start() % payload_size < payload_size,
    ;
}

} // verus!
