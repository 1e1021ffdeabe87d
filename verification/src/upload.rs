//! Uploading one segment: the body is cut into padded payload frames and
//! hashed as it arrives, and each frame is encrypted under its number.
use bytes::{Bytes, BytesMut};
use vstd::prelude::*;

use crate::buffer::{buffer_fits, bytes_slice, contents, contents_mut};
use crate::byte::{
    ceil_div, clips, div_ceil, law_byte_range_is_exact, request_clip, ByteRequest,
};
use crate::download::FrameDownloadView;
use crate::frame::{
    frame_payload, sealed_frame, AssemblerView, CodecView, FrameEncoder, FrameError, TAG_SIZE,
};
use crate::crypto::MAX_PLAINTEXT;
use crate::hash::{blake3_fed, blake3_finalize, blake3_of, blake3_update};
use crate::join::{joined, lemma_joined_part};
use crate::request::{DecryptKey, ObjectId};
use crate::stream::SignedUrl;
use crate::text::{decimal, push_decimal, push_text};

verus! {

pub struct UploadObject {
    pub id: ObjectId,
    pub key: DecryptKey,
}

#[derive(Debug, PartialEq, Eq)]
pub struct StoredObject {
    pub uri: String,
    pub cached_url: Option<SignedUrl>,
}

impl Clone for StoredObject {
    fn clone(&self) -> (copy: Self)
        ensures
            copy == *self,
    {
        StoredObject {
            uri: self.uri.clone(),
            cached_url: match &self.cached_url {
                Some(url) => Some(url.clone()),
                None => None,
            },
        }
    }
}

#[derive(Debug, PartialEq, Eq)]
pub struct UploadResult {
    pub stored_object: StoredObject,
    pub plaintext_size: u64,
    pub frame_count: u32,
    pub checksum: [u8; 32],
}

#[derive(Clone, Copy, Debug, PartialEq, Eq, Structural)]
pub enum UploadError {
    FrameTooSmall,
    ZeroCapacity,
    Empty,
    TooLarge { max_bytes: u64 },
    LengthMismatch { expected: u64, actual: u64 },
    Incomplete,
}

impl UploadError {
    pub open spec fn text(self) -> Seq<char> {
        match self {
            UploadError::FrameTooSmall => "frame size must be greater than the tag"@,
            UploadError::ZeroCapacity => "upload backend accepts no frames"@,
            UploadError::Empty => "segment body must not be empty"@,
            UploadError::TooLarge { max_bytes } => "segment exceeds "@ + decimal(max_bytes as nat)
                + " plaintext bytes"@,
            UploadError::LengthMismatch { expected, actual } => "Content-Length was "@ + decimal(
                expected as nat,
            ) + ", body contained "@ + decimal(actual as nat) + " bytes"@,
            UploadError::Incomplete => "upload backend stopped before consuming the body"@,
        }
    }

    pub fn message(&self) -> (text: String)
        ensures
            text@ == self.text(),
    {
        let mut text: String = String::new();
        match self {
            UploadError::FrameTooSmall => push_text(
                &mut text,
                "frame size must be greater than the tag",
            ),
            UploadError::ZeroCapacity => push_text(&mut text, "upload backend accepts no frames"),
            UploadError::Empty => push_text(&mut text, "segment body must not be empty"),
            UploadError::TooLarge { max_bytes } => {
                push_text(&mut text, "segment exceeds ");
                push_decimal(&mut text, *max_bytes);
                push_text(&mut text, " plaintext bytes");
            },
            UploadError::LengthMismatch { expected, actual } => {
                push_text(&mut text, "Content-Length was ");
                push_decimal(&mut text, *expected);
                push_text(&mut text, ", body contained ");
                push_decimal(&mut text, *actual);
                push_text(&mut text, " bytes");
            },
            UploadError::Incomplete => push_text(
                &mut text,
                "upload backend stopped before consuming the body",
            ),
        }
        assert(text@ =~= self.text());
        text
    }
}

/// Frames that fit into one stored segment.
pub fn max_frames_per_segment(max_physical_bytes: u64, frame_size: usize) -> (frames: u32)
    requires
        frame_size > 0,
    ensures
        frames == if max_physical_bytes as int / frame_size as int <= u32::MAX {
            max_physical_bytes as int / frame_size as int
        } else {
            u32::MAX as int
        },
{
    let frames: u64 = max_physical_bytes / frame_size as u64;
    if frames <= u32::MAX as u64 {
        frames as u32
    } else {
        u32::MAX
    }
}

/// Encrypted bytes that a segment of `frame_count` frames takes.
pub fn physical_size(frame_count: u32, frame_size: usize) -> (bytes: u64)
    requires
        frame_count * frame_size <= u64::MAX,
    ensures
        bytes == frame_count * frame_size,
{
    frame_count as u64 * frame_size as u64
}

/// The limits under which bodies are uploaded.
#[derive(Clone, Copy, Debug, PartialEq, Eq, Structural)]
pub struct ByteUpload {
    frame_size: usize,
    max_frames: u32,
}

/// What the limits are.
pub struct ByteUploadView {
    pub frame_size: int,
    pub max_frames: int,
}

impl ByteUploadView {
    pub open spec fn payload_size(self) -> int {
        self.frame_size - TAG_SIZE
    }

    /// Plaintext bytes that fit into one segment.
    pub open spec fn max_bytes(self) -> int {
        self.max_frames * self.payload_size()
    }

    pub open spec fn wf(self) -> bool {
        &&& TAG_SIZE < self.frame_size <= usize::MAX
        &&& buffer_fits(self.frame_size)
        &&& 0 < self.max_frames <= u32::MAX
        &&& self.max_bytes() <= u64::MAX
    }
}

impl View for ByteUpload {
    type V = ByteUploadView;

    closed spec fn view(&self) -> ByteUploadView {
        ByteUploadView { frame_size: self.frame_size as int, max_frames: self.max_frames as int }
    }
}

impl ByteUpload {
    pub fn new(max_frames_per_segment: u32, frame_size: usize) -> (upload: Result<
        ByteUpload,
        UploadError,
    >)
        requires
            buffer_fits(frame_size as int),
            max_frames_per_segment * (frame_size - TAG_SIZE) <= u64::MAX,
        ensures
            match upload {
                Ok(u) => {
                    &&& u@.wf()
                    &&& u@ == (ByteUploadView {
                        frame_size: frame_size as int,
                        max_frames: max_frames_per_segment as int,
                    })
                },
                Err(e) => {
                    &&& frame_size <= TAG_SIZE || max_frames_per_segment == 0
                    &&& e == if frame_size <= TAG_SIZE {
                        UploadError::FrameTooSmall
                    } else {
                        UploadError::ZeroCapacity
                    }
                },
            },
    {
        if frame_size <= TAG_SIZE {
            return Err(UploadError::FrameTooSmall);
        }
        if max_frames_per_segment == 0 {
            return Err(UploadError::ZeroCapacity);
        }
        Ok(ByteUpload { frame_size, max_frames: max_frames_per_segment })
    }

    pub fn payload_size(&self) -> (size: usize)
        requires
            self@.wf(),
        ensures
            size == self@.payload_size(),
    {
        self.frame_size - TAG_SIZE
    }

    pub fn max_bytes(&self) -> (bytes: u64)
        requires
            self@.wf(),
        ensures
            bytes == self@.max_bytes(),
    {
        self.max_frames as u64 * (self.frame_size - TAG_SIZE) as u64
    }

    /// Checks the announced length and starts cutting. Returns the frames to
    /// expect where a length was announced.
    pub fn begin(&self, content_length: Option<u64>) -> (started: Result<
        (BodyCutter, Option<u32>),
        UploadError,
    >)
        requires
            self@.wf(),
        ensures
            match started {
                Ok((cutter, hint)) => {
                    &&& content_length matches Some(size) ==> 0 < size <= self@.max_bytes()
                    &&& cutter.wf()
                    &&& cutter@ == (CutterView {
                        payload_size: self@.payload_size(),
                        max_frames: self@.max_frames,
                        body: Seq::empty(),
                    })
                    &&& hint is Some <==> content_length is Some
                    &&& content_length matches Some(size) ==> hint->0 == ceil_div(
                        size as int,
                        self@.payload_size(),
                    )
                },
                Err(e) => {
                    &&& content_length matches Some(size) && (size == 0 || size
                        > self@.max_bytes()) && e == if size == 0 {
                        UploadError::Empty
                    } else {
                        UploadError::TooLarge { max_bytes: self@.max_bytes() as u64 }
                    }
                },
            },
    {
        let payload_size: usize = self.payload_size();
        let max_bytes: u64 = self.max_bytes();
        let hint: Option<u32> = match content_length {
            None => None,
            Some(size) => {
                if size == 0 {
                    return Err(UploadError::Empty);
                }
                if size > max_bytes {
                    return Err(UploadError::TooLarge { max_bytes });
                }
                let frames: u64 = div_ceil(size, payload_size as u64);
                proof {
                    lemma_frames_fit(
                        size as int,
                        payload_size as int,
                        self@.max_frames,
                        frames as int,
                    );
                }
                Some(frames as u32)
            },
        };
        let cutter: BodyCutter = BodyCutter {
            payload_size,
            max_bytes,
            pending: BytesMut::with_capacity(payload_size),
            hasher: blake3::Hasher::new(),
            size: 0,
            frame_count: 0,
            max_frames: Ghost(self.max_frames as int),
            body: Ghost(Seq::empty()),
        };
        proof {
            assert(cutter.body@.skip(0) =~= Seq::<u8>::empty());
            assert(0int / (payload_size as int) == 0) by (nonlinear_arith)
                requires
                    payload_size > 0,
            ;
            assert(0 * payload_size == 0 && 1 * payload_size == payload_size);
        }
        Ok((cutter, hint))
    }
}

proof fn lemma_frames_fit(size: int, payload_size: int, max_frames: int, frames: int)
    requires
        0 <= size <= max_frames * payload_size,
        payload_size > 0,
        frames * payload_size < size + payload_size,
    ensures
        frames <= max_frames,
{
    assert(frames <= max_frames) by (nonlinear_arith)
        requires
            size <= max_frames * payload_size,
            payload_size > 0,
            frames * payload_size < size + payload_size,
    ;
}

/// What a body cutter is: the payload of a frame, the most frames, and the body
/// received so far.
pub struct CutterView {
    pub payload_size: int,
    pub max_frames: int,
    pub body: Seq<u8>,
}

impl CutterView {
    pub open spec fn max_bytes(self) -> int {
        self.max_frames * self.payload_size
    }

    /// Complete frames in the body received so far.
    pub open spec fn full_frames(self) -> int {
        self.body.len() as int / self.payload_size
    }

    pub open spec fn wf(self) -> bool {
        &&& 0 < self.payload_size
        &&& buffer_fits(self.payload_size)
        &&& 0 < self.max_frames <= u32::MAX
        &&& self.max_bytes() <= u64::MAX
        &&& self.body.len() <= self.max_bytes()
    }
}

/// The body, filled up with zeros to whole frames.
pub open spec fn padded(body: Seq<u8>, payload_size: int) -> Seq<u8> {
    body + Seq::new(
        (ceil_div(body.len() as int, payload_size) * payload_size - body.len()) as nat,
        |i: int| 0u8,
    )
}

/// The payload of frame `index` of a body.
pub open spec fn payload_frame(body: Seq<u8>, payload_size: int, index: int) -> Seq<u8> {
    padded(body, payload_size).subrange(index * payload_size, (index + 1) * payload_size)
}

/// What is known of a body at its end: its size, frame count and BLAKE3 hash.
#[derive(Clone, Copy, Debug, PartialEq, Eq)]
pub struct UploadSummary {
    pub plaintext_size: u64,
    pub frame_count: u32,
    pub checksum: [u8; 32],
}

/// The end of a body: its last frame where the body does not fill it, and what
/// is known of it.
pub struct BodyEnd {
    pub last_frame: Option<Bytes>,
    pub summary: UploadSummary,
}

/// Cuts a body into payload frames and hashes it.
pub struct BodyCutter {
    payload_size: usize,
    max_bytes: u64,
    pending: BytesMut,
    hasher: blake3::Hasher,
    size: u64,
    frame_count: u32,
    max_frames: Ghost<int>,
    body: Ghost<Seq<u8>>,
}

impl View for BodyCutter {
    type V = CutterView;

    closed spec fn view(&self) -> CutterView {
        CutterView {
            payload_size: self.payload_size as int,
            max_frames: self.max_frames@,
            body: self.body@,
        }
    }
}

impl BodyCutter {
    /// The counters and buffers are those of the body received so far.
    pub closed spec fn in_step(self) -> bool {
        &&& self.max_bytes == self@.max_bytes()
        &&& self.size == self.body@.len()
        &&& blake3_fed(self.hasher) == self.body@
        &&& self.frame_count == self@.full_frames()
        &&& self.frame_count * self.payload_size <= self.body@.len()
        &&& self.body@.len() < (self.frame_count + 1) * self.payload_size
        &&& contents_mut(self.pending) == self.body@.skip(self.frame_count * self.payload_size)
    }

    pub open spec fn wf(self) -> bool {
        self@.wf() && self.in_step()
    }

    /// Takes a chunk of the body and returns the frames that it completes.
    pub fn push(&mut self, chunk: &Bytes) -> (frames: Result<Vec<Bytes>, UploadError>)
        requires
            old(self).wf(),
        ensures
            match frames {
                Ok(done) => {
                    let after = old(self)@.body + contents(*chunk);
                    let first = old(self)@.full_frames();
                    &&& after.len() <= old(self)@.max_bytes()
                    &&& final(self).wf()
                    &&& final(self)@ == (CutterView { body: after, ..old(self)@ })
                    &&& done.len() == final(self)@.full_frames() - first
                    &&& forall|k: int|
                        0 <= k < done.len() ==> contents(#[trigger] done[k]) == after.subrange(
                            (first + k) * old(self)@.payload_size,
                            (first + k + 1) * old(self)@.payload_size,
                        )
                },
                Err(e) => {
                    &&& old(self)@.body.len() + contents(*chunk).len() > old(self)@.max_bytes()
                    &&& e == UploadError::TooLarge { max_bytes: old(self)@.max_bytes() as u64 }
                },
            },
    {
        let chunk_len: usize = chunk.len();
        let size: u64 = match self.size.checked_add(chunk_len as u64) {
            Some(size) => size,
            None => {
                return Err(UploadError::TooLarge { max_bytes: self.max_bytes });
            },
        };
        if size > self.max_bytes {
            return Err(UploadError::TooLarge { max_bytes: self.max_bytes });
        }
        let bytes: &[u8] = bytes_slice(chunk);
        blake3_update(&mut self.hasher, bytes);
        self.size = size;
        let ghost before = self.body@;
        let ghost after = before + bytes@;
        let ghost first = self.frame_count as int;
        let p: usize = self.payload_size;
        let mut done: Vec<Bytes> = Vec::new();
        let mut offset: usize = 0;
        proof {
            assert(before + bytes@.take(0) =~= before);
        }
        while offset < chunk_len
            invariant
                chunk_len == bytes@.len(),
                offset <= chunk_len,
                p == self.payload_size,
                p > 0,
                buffer_fits(p as int),
                after == before + bytes@,
                self.max_bytes == old(self).max_bytes,
                self.max_frames == old(self).max_frames,
                self.body == old(self).body,
                self.size == after.len(),
                blake3_fed(self.hasher) == after,
                after.len() <= self.max_bytes,
                self.max_bytes == self.max_frames@ * p,
                self.max_frames@ <= u32::MAX,
                first + done.len() == self.frame_count,
                self.frame_count * p <= before.len() + offset,
                before.len() + offset < (self.frame_count + 1) * p,
                contents_mut(self.pending) == (before + bytes@.take(offset as int)).skip(
                    self.frame_count * p,
                ),
                0 <= first,
                forall|k: int|
                    0 <= k < done.len() ==> contents(#[trigger] done[k]) == after.subrange(
                        (first + k) * p,
                        (first + k + 1) * p,
                    ),
            decreases chunk_len - offset,
        {
            let filled: usize = self.pending.len();
            proof {
                assert((self.frame_count + 1) * p == self.frame_count * p + p) by (nonlinear_arith);
                assert((self.frame_count + 2) * p == self.frame_count * p + p + p)
                    by (nonlinear_arith);
            }
            let room: usize = p - filled;
            let left: usize = chunk_len - offset;
            let take: usize = if room <= left { room } else { left };
            let ghost held = before + bytes@.take(offset as int);
            let ghost next = before + bytes@.take(offset + take);
            let part: &[u8] = vstd::slice::slice_subrange(bytes, offset, offset + take);
            self.pending.extend_from_slice(part);
            proof {
                assert(next =~= held + part@);
                assert(next.skip(self.frame_count * p) =~= held.skip(self.frame_count * p)
                    + part@);
            }
            offset = offset + take;
            if self.pending.len() == p {
                proof {
                    assert(next.len() == (self.frame_count + 1) * p);
                    assert(next.skip(self.frame_count * p) =~= after.subrange(
                        self.frame_count * p,
                        (self.frame_count + 1) * p,
                    ));
                    assert(next.skip((self.frame_count + 1) * p) =~= Seq::<u8>::empty());
                    lemma_frames_fit(
                        next.len() as int,
                        p as int,
                        self.max_frames@,
                        self.frame_count + 1,
                    );
                }
                self.frame_count = self.frame_count + 1;
                let frame: Bytes = self.pending.split().freeze();
                done.push(frame);
            }
        }
        proof {
            assert(bytes@.take(offset as int) =~= bytes@);
            self.body@ = after;
            assert((self.frame_count + 1) * p == self.frame_count * p + p) by (nonlinear_arith);
            vstd::arithmetic::div_mod::lemma_fundamental_div_mod_converse(
                after.len() as int,
                p as int,
                self.frame_count as int,
                after.len() - self.frame_count * p,
            );
        }
        Ok(done)
    }

    /// Ends the body: fills the last frame up with zeros.
    pub fn finish(self) -> (end: Result<BodyEnd, UploadError>)
        requires
            self.wf(),
        ensures
            match end {
                Ok(e) => {
                    &&& self@.body.len() > 0
                    &&& e.summary.plaintext_size == self@.body.len()
                    &&& e.summary.frame_count == ceil_div(
                        self@.body.len() as int,
                        self@.payload_size,
                    )
                    &&& e.summary.checksum@ == blake3_of(self@.body)
                    &&& e.last_frame is Some <==> self@.body.len() as int % self@.payload_size
                        != 0
                    &&& e.last_frame matches Some(frame) ==> contents(frame) == payload_frame(
                        self@.body,
                        self@.payload_size,
                        self@.full_frames(),
                    )
                },
                Err(e) => self@.body.len() == 0 && e == UploadError::Empty,
            },
    {
        let p: usize = self.payload_size;
        proof {
            vstd::arithmetic::div_mod::lemma_fundamental_div_mod(
                self.body@.len() as int,
                p as int,
            );
            assert(p * self.frame_count == self.frame_count * p) by (nonlinear_arith);
            assert((self.frame_count + 1) * p == self.frame_count * p + p) by (nonlinear_arith);
        }
        if self.pending.is_empty() && self.frame_count == 0 {
            proof {
                assert(0 * p == 0);
            }
            return Err(UploadError::Empty);
        }
        let checksum: [u8; 32] = blake3_finalize(&self.hasher);
        let mut frame_count: u32 = self.frame_count;
        let mut last: BytesMut = self.pending;
        let last_frame: Option<Bytes> = if last.is_empty() {
            None
        } else {
            let ghost tail = contents_mut(last);
            last.resize(p, 0);
            proof {
                assert(contents_mut(last) =~= payload_frame(
                    self.body@,
                    p as int,
                    self.frame_count as int,
                ));
                lemma_frames_fit(
                    self.body@.len() as int,
                    p as int,
                    self.max_frames@,
                    self.frame_count + 1,
                );
            }
            frame_count = frame_count + 1;
            Some(last.freeze())
        };
        Ok(
            BodyEnd {
                last_frame,
                summary: UploadSummary { plaintext_size: self.size, frame_count, checksum },
            },
        )
    }
}

/// Compares the announced length with the bytes that came.
pub fn check_length(content_length: Option<u64>, actual: u64) -> (checked: Result<
    (),
    UploadError,
>)
    ensures
        match checked {
            Ok(_) => content_length matches Some(expected) ==> expected == actual,
            Err(e) => content_length matches Some(expected) && expected != actual && e
                == (UploadError::LengthMismatch { expected, actual }),
        },
{
    match content_length {
        Some(expected) => {
            if expected != actual {
                Err(UploadError::LengthMismatch { expected, actual })
            } else {
                Ok(())
            }
        },
        None => Ok(()),
    }
}

/// Ends an upload: the body was consumed to its end and has the announced
/// length. After a length mismatch the stored object has to be deleted.
pub fn complete_upload(
    stored_object: StoredObject,
    summary: Option<UploadSummary>,
    content_length: Option<u64>,
) -> (result: Result<UploadResult, UploadError>)
    ensures
        match result {
            Ok(r) => {
                &&& summary matches Some(s) && r.plaintext_size == s.plaintext_size
                    && r.frame_count == s.frame_count && r.checksum == s.checksum && (
                content_length matches Some(expected) ==> expected == s.plaintext_size)
                &&& r.stored_object == stored_object
            },
            Err(e) => match summary {
                None => e == UploadError::Incomplete,
                Some(s) => content_length matches Some(expected) && expected != s.plaintext_size
                    && e == (UploadError::LengthMismatch {
                    expected,
                    actual: s.plaintext_size,
                }),
            },
        },
{
    let summary: UploadSummary = match summary {
        Some(summary) => summary,
        None => {
            return Err(UploadError::Incomplete);
        },
    };
    match check_length(content_length, summary.plaintext_size) {
        Err(error) => Err(error),
        Ok(_) => Ok(
            UploadResult {
                stored_object,
                plaintext_size: summary.plaintext_size,
                frame_count: summary.frame_count,
                checksum: summary.checksum,
            },
        ),
    }
}

/// Encrypts the frames of one segment, each under its number.
pub struct SegmentEncoder {
    encoder: FrameEncoder,
    index: u64,
}

/// What a segment encoder is: its codec, and the number of its next frame.
pub struct SegmentEncoderView {
    pub codec: CodecView,
    pub index: int,
}

impl View for SegmentEncoder {
    type V = SegmentEncoderView;

    closed spec fn view(&self) -> SegmentEncoderView {
        SegmentEncoderView { codec: self.encoder@, index: self.index as int }
    }
}

impl SegmentEncoder {
    pub open spec fn wf(self) -> bool {
        &&& TAG_SIZE < self@.codec.frame_size <= usize::MAX
        &&& buffer_fits(self@.codec.frame_size)
    }

    pub fn new(frame_size: usize, key: &DecryptKey) -> (encoder: Result<SegmentEncoder, FrameError>)
        requires
            buffer_fits(frame_size as int),
        ensures
            match encoder {
                Ok(e) => {
                    &&& e.wf()
                    &&& e@ == (SegmentEncoderView {
                        codec: CodecView { frame_size: frame_size as int, key: key@ },
                        index: 0,
                    })
                },
                Err(e) => frame_size <= TAG_SIZE && e == FrameError::FrameTooSmall,
            },
    {
        match FrameEncoder::new(frame_size, key) {
            Ok(encoder) => Ok(SegmentEncoder { encoder, index: 0 }),
            Err(error) => Err(error),
        }
    }

    /// Encrypts the next frame. Decoding it under the same key and number gives
    /// the payload back.
    pub fn encode(&mut self, frame: &Bytes) -> (encrypted: Result<Bytes, FrameError>)
        requires
            old(self).wf(),
            old(self)@.index < u64::MAX,
            buffer_fits(contents(*frame).len() as int),
        ensures
            ({
                let payload = contents(*frame);
                let codec = old(self)@.codec;
                let index = old(self)@.index as u64;
                match encrypted {
                    Ok(bytes) => {
                        &&& payload.len() == codec.frame_size - TAG_SIZE
                        &&& contents(bytes) == sealed_frame(codec.key, payload, index)
                        &&& contents(bytes).len() == codec.frame_size
                        &&& frame_payload(codec.key, contents(bytes), index) == Some(payload)
                        &&& final(self).wf()
                        &&& final(self)@ == (SegmentEncoderView {
                            index: old(self)@.index + 1,
                            ..old(self)@
                        })
                    },
                    Err(FrameError::InvalidFrameSize { expected, actual }) => {
                        &&& payload.len() != codec.frame_size - TAG_SIZE
                        &&& expected == codec.frame_size - TAG_SIZE
                        &&& actual == payload.len()
                        &&& final(self)@ == old(self)@
                    },
                    Err(e) => {
                        &&& e == FrameError::AuthenticationFailed
                        &&& payload.len() == codec.frame_size - TAG_SIZE
                        &&& payload.len() > MAX_PLAINTEXT
                        &&& final(self)@ == old(self)@
                    },
                }
            }),
    {
        let mut payload: BytesMut = BytesMut::with_capacity(frame.len());
        payload.extend_from_slice(bytes_slice(frame));
        proof {
            assert(contents_mut(payload) =~= contents(*frame));
        }
        match self.encoder.encode_frame(payload, self.index) {
            Ok(encrypted) => {
                self.index = self.index + 1;
                Ok(encrypted)
            },
            Err(error) => Err(error),
        }
    }
}

/// The storage promise: frames cut from a padded body, read back for a byte
/// range within the body and clipped, are exactly those bytes of the body.
pub proof fn law_uploaded_range_reads_back(
    body: Seq<u8>,
    request: ByteRequest,
    payload_size: int,
    frames: Seq<Seq<u8>>,
)
    requires
        payload_size > 0,
        request.wf(),
        request.end() <= body.len(),
        frames.len() == ceil_div(request.end(), payload_size) - request.start() / payload_size,
        forall|k: int|
            0 <= k < frames.len() ==> #[trigger] frames[k] == payload_frame(
                body,
                payload_size,
                request.start() / payload_size + k,
            ),
    ensures
        joined(clips(request_clip(request, payload_size), frames)) == body.subrange(
            request.start(),
            request.end(),
        ),
{
    let whole = padded(body, payload_size);
    let size = body.len() as int;
    let blocks = ceil_div(size, payload_size);
    let wanted = ceil_div(request.end(), payload_size);
    lemma_ceil_div(size, payload_size);
    lemma_ceil_div(request.end(), payload_size);
    assert(wanted <= blocks) by (nonlinear_arith)
        requires
            wanted * payload_size < request.end() + payload_size,
            request.end() <= size <= blocks * payload_size,
            payload_size > 0,
    ;
    assert(wanted * payload_size <= blocks * payload_size) by (nonlinear_arith)
        requires
            wanted <= blocks,
            payload_size > 0,
    ;
    assert(whole.len() == blocks * payload_size);
    law_byte_range_is_exact(whole, request, payload_size, frames);
    assert(whole.subrange(request.start(), request.end()) =~= body.subrange(
        request.start(),
        request.end(),
    ));
}

/// The frames of a stored object that a byte range needs.
pub open spec fn frames_of_range(request: ByteRequest, payload_size: int) -> (int, int) {
    (request.start() / payload_size, ceil_div(request.end(), payload_size))
}

/// A download of these frames of a stored object, with its whole response fed
/// and `taken` frames handed out.
pub open spec fn download_after(
    key: Seq<u8>,
    stored: Seq<u8>,
    frame_size: int,
    frames: (int, int),
    taken: int,
) -> FrameDownloadView {
    FrameDownloadView {
        key,
        body: AssemblerView {
            frame_size,
            fed: stored.subrange(frames.0 * frame_size, frames.1 * frame_size),
            taken,
        },
        start: frames.0,
        end: frames.1,
    }
}

/// Whether these are the encrypted frames of a body, under a key.
pub open spec fn is_sealed(
    key: Seq<u8>,
    body: Seq<u8>,
    frame_size: int,
    sealed: Seq<Seq<u8>>,
) -> bool {
    &&& sealed.len() == ceil_div(body.len() as int, frame_size - TAG_SIZE)
    &&& forall|k: int|
        #![trigger sealed[k]]
        0 <= k < sealed.len() ==> sealed[k].len() == frame_size && frame_payload(
            key,
            sealed[k],
            k as u64,
        ) == Some(payload_frame(body, frame_size - TAG_SIZE, k))
}

/// Whichever of its frames are downloaded, each frame of a stored object
/// authenticates and gives the payload that was encrypted.
pub proof fn law_stored_frames_decrypt(
    key: Seq<u8>,
    body: Seq<u8>,
    frame_size: int,
    sealed: Seq<Seq<u8>>,
    frames: (int, int),
    taken: int,
)
    requires
        TAG_SIZE < frame_size,
        is_sealed(key, body, frame_size, sealed),
        0 <= frames.0 <= frames.0 + taken < frames.1 <= sealed.len(),
    ensures
        download_after(key, joined(sealed), frame_size, frames, taken).next_payload() == Some(
            payload_frame(body, frame_size - TAG_SIZE, frames.0 + taken),
        ),
{
    let (first, end) = frames;
    let k = taken;
    let download = download_after(key, joined(sealed), frame_size, frames, k);
    lemma_joined_part(sealed, frame_size, first + k);
    assert(first * frame_size + k * frame_size == (first + k) * frame_size) by (nonlinear_arith);
    assert((k + 1) * frame_size == k * frame_size + frame_size) by (nonlinear_arith);
    assert((first + k + 1) * frame_size == (first + k) * frame_size + frame_size)
        by (nonlinear_arith);
    assert(0 <= k * frame_size && 0 <= first * frame_size && (first + k + 1) * frame_size <= end
        * frame_size && end * frame_size <= sealed.len() * frame_size) by (nonlinear_arith)
        requires
            0 <= k,
            0 <= first,
            first + k + 1 <= end <= sealed.len(),
            0 < frame_size,
    ;
    assert(download.body.frame(k) =~= sealed[first + k]);
}

/// Write, then read: an object is stored as the encrypted frames of a body, one
/// after the other. Of a byte range within the body, the physical range of its
/// frames is downloaded. Every frame then authenticates, and the clipped
/// payloads are exactly the bytes asked for.
pub proof fn law_stored_object_reads_back(
    key: Seq<u8>,
    body: Seq<u8>,
    frame_size: int,
    sealed: Seq<Seq<u8>>,
    request: ByteRequest,
    payloads: Seq<Seq<u8>>,
)
    requires
        TAG_SIZE < frame_size,
        request.wf(),
        request.end() <= body.len(),
        is_sealed(key, body, frame_size, sealed),
        ({
            let frames = frames_of_range(request, frame_size - TAG_SIZE);
            &&& payloads.len() == frames.1 - frames.0
            &&& forall|k: int|
                0 <= k < payloads.len() ==> #[trigger] payloads[k] == download_after(
                    key,
                    joined(sealed),
                    frame_size,
                    frames,
                    k,
                ).next_payload()->0
        }),
    ensures
        forall|k: int|
            0 <= k < payloads.len() ==> (#[trigger] download_after(
                key,
                joined(sealed),
                frame_size,
                frames_of_range(request, frame_size - TAG_SIZE),
                k,
            )).next_payload() is Some,
        joined(clips(request_clip(request, frame_size - TAG_SIZE), payloads)) == body.subrange(
            request.start(),
            request.end(),
        ),
{
    let payload_size = frame_size - TAG_SIZE;
    let frames = frames_of_range(request, payload_size);
    let stored = joined(sealed);
    let (first, end) = frames;
    lemma_ceil_div(body.len() as int, payload_size);
    lemma_ceil_div(request.end(), payload_size);
    vstd::arithmetic::div_mod::lemma_div_pos_is_pos(request.start(), payload_size);
    assert(end <= sealed.len()) by (nonlinear_arith)
        requires
            end * payload_size < request.end() + payload_size,
            request.end() <= body.len() <= sealed.len() * payload_size,
            payload_size > 0,
    ;
    assert forall|k: int| 0 <= k < payloads.len() implies (#[trigger] download_after(
        key,
        stored,
        frame_size,
        frames,
        k,
    )).next_payload() == Some(payload_frame(body, payload_size, first + k)) by {
        law_stored_frames_decrypt(key, body, frame_size, sealed, frames, k);
    }
    assert forall|k: int| 0 <= k < payloads.len() implies #[trigger] payloads[k] == payload_frame(
        body,
        payload_size,
        request.start() / payload_size + k,
    ) by {
        assert(download_after(key, stored, frame_size, frames, k).next_payload() is Some);
    }
    law_uploaded_range_reads_back(body, request, payload_size, payloads);
}

/// Rounding up to whole blocks covers everything and adds less than a block.
pub proof fn lemma_ceil_div(n: int, size: int)
    requires
        0 <= n,
        0 < size,
    ensures
        n <= ceil_div(n, size) * size < n + size,
{
    vstd::arithmetic::div_mod::lemma_fundamental_div_mod(n, size);
    let q = n / size;
    assert(q * size == size * q) by (nonlinear_arith);
    assert((q + 1) * size == size * q + size) by (nonlinear_arith);
}

/// Padding keeps the body and fills exactly `ceil(size / payload)` frames.
pub proof fn law_padding_keeps_the_body(body: Seq<u8>, payload_size: int)
    requires
        payload_size > 0,
    ensures
        padded(body, payload_size).take(body.len() as int) == body,
        padded(body, payload_size).len() == ceil_div(body.len() as int, payload_size)
            * payload_size,
{
    lemma_ceil_div(body.len() as int, payload_size);
    assert(padded(body, payload_size).take(body.len() as int) =~= body);
}

/// What fills the last frame of a body up is zeros.
pub proof fn law_padding_is_zeros(body: Seq<u8>, payload_size: int, i: int)
    requires
        payload_size > 0,
        body.len() <= i < padded(body, payload_size).len(),
    ensures
        padded(body, payload_size)[i] == 0,
        i < body.len() + payload_size,
{
    lemma_ceil_div(body.len() as int, payload_size);
}

/// Frames are cut as soon as they are full: the full ones and less than one more
/// are the body.
pub proof fn law_frames_are_cut_when_full(view: CutterView)
    requires
        view.wf(),
    ensures
        view.full_frames() * view.payload_size <= view.body.len(),
        view.body.len() < (view.full_frames() + 1) * view.payload_size,
        view.max_bytes() == view.max_frames * view.payload_size,
{
    let size = view.payload_size;
    let full = view.full_frames();
    let len = view.body.len() as int;
    vstd::arithmetic::div_mod::lemma_fundamental_div_mod(len, size);
    assert(full * size <= len < (full + 1) * size) by (nonlinear_arith)
        requires
            len == size * full + len % size,
            0 <= len % size < size,
    ;
}

/// A segment takes as many bytes as its frames have payload: each frame has its
/// size but for the sixteen bytes of the tag.
pub proof fn law_segments_hold_their_payload(view: ByteUploadView)
    ensures
        view.payload_size() + 16 == view.frame_size,
        view.max_bytes() == view.max_frames * (view.frame_size - 16),
{
}

/// A full body has no padding: where its bytes fill whole frames, the frames are
/// its bytes and nothing else.
pub proof fn law_full_bodies_are_not_padded(body: Seq<u8>, payload_size: int)
    requires
        payload_size > 0,
        body.len() as int % payload_size == 0,
    ensures
        padded(body, payload_size) == body,
{
    let len = body.len() as int;
    vstd::arithmetic::div_mod::lemma_fundamental_div_mod(len, payload_size);
    assert(ceil_div(len, payload_size) * payload_size == len) by (nonlinear_arith)
        requires
            ceil_div(len, payload_size) == len / payload_size,
            len == payload_size * (len / payload_size) + 0,
    ;
    assert(padded(body, payload_size) =~= body);
}

} // verus!
