//! Turns the encrypted bytes of one object into authenticated frames.
use std::ops::Range;

use bytes::{Bytes, BytesMut};
use vstd::prelude::*;

use crate::buffer::{buffer_fits, contents};
use crate::frame::{
    frame_payload, AssemblerView, FrameAssembler, FrameDecoder, FrameError, TAG_SIZE,
};
use crate::request::DecryptKey;

verus! {

#[derive(Clone, Copy, Debug, PartialEq, Eq, Structural)]
pub enum DownloadError {
    PhysicalRangeOverflow,
    TooManyBytes,
    EndedEarly,
    Frame(FrameError),
}

impl DownloadError {
    pub open spec fn text(self) -> Seq<char> {
        match self {
            DownloadError::PhysicalRangeOverflow => "physical range overflow"@,
            DownloadError::TooManyBytes => "backend returned more bytes than requested"@,
            DownloadError::EndedEarly => "backend ended before its last requested frame"@,
            DownloadError::Frame(error) => error.text(),
        }
    }

    pub fn message(&self) -> (text: String)
        ensures
            text@ == self.text(),
    {
        match self {
            DownloadError::PhysicalRangeOverflow => "physical range overflow".to_owned(),
            DownloadError::TooManyBytes => "backend returned more bytes than requested".to_owned(),
            DownloadError::EndedEarly => "backend ended before its last requested frame".to_owned(),
            DownloadError::Frame(error) => error.message(),
        }
    }
}

/// The bytes of an object that hold the frames.
pub fn physical_range(frames: Range<u32>, frame_size: usize) -> (range: Result<
    Range<u64>,
    DownloadError,
>)
    ensures
        match range {
            Ok(r) => {
                &&& r.start == frames.start * frame_size
                &&& r.end == frames.end * frame_size
            },
            Err(e) => {
                &&& e == DownloadError::PhysicalRangeOverflow
                &&& frames.start * frame_size > u64::MAX || frames.end * frame_size > u64::MAX
            },
        },
{
    let start: u64 = match (frames.start as u64).checked_mul(frame_size as u64) {
        Some(start) => start,
        None => {
            return Err(DownloadError::PhysicalRangeOverflow);
        },
    };
    let end: u64 = match (frames.end as u64).checked_mul(frame_size as u64) {
        Some(end) => end,
        None => {
            return Err(DownloadError::PhysicalRangeOverflow);
        },
    };
    Ok(start..end)
}

/// What a frame download is: the key, the body received so far, and the frames
/// `start..end` that it has to contain.
pub struct FrameDownloadView {
    pub key: Seq<u8>,
    pub body: AssemblerView,
    pub start: int,
    pub end: int,
}

impl FrameDownloadView {
    pub open spec fn wf(self) -> bool {
        &&& self.body.wf()
        &&& TAG_SIZE < self.body.frame_size <= usize::MAX
        &&& 0 <= self.start <= self.end <= u32::MAX
        &&& self.start + self.body.taken <= self.end
    }

    /// The number, within the object, of the next frame of the body.
    pub open spec fn index(self) -> int {
        self.start + self.body.taken
    }

    /// The plaintext of the next frame of the body.
    pub open spec fn next_payload(self) -> Option<Seq<u8>> {
        frame_payload(self.key, self.body.frame(self.body.taken), self.index() as u64)
    }
}

/// Cuts a body into frames and decrypts them in order.
pub struct FrameDownload {
    decoder: FrameDecoder,
    assembler: FrameAssembler,
    index: u64,
    end: u64,
    start: Ghost<int>,
}

impl View for FrameDownload {
    type V = FrameDownloadView;

    closed spec fn view(&self) -> FrameDownloadView {
        FrameDownloadView {
            key: self.decoder@.key,
            body: self.assembler@,
            start: self.start@,
            end: self.end as int,
        }
    }
}

impl FrameDownload {
    /// The decoder and the assembler stand at the same frame.
    pub closed spec fn in_step(self) -> bool {
        &&& self.decoder.wf()
        &&& self.assembler.wf()
        &&& self.decoder@.frame_size == self.assembler@.frame_size
        &&& self.index == self@.index()
    }

    pub open spec fn wf(self) -> bool {
        self@.wf() && self.in_step()
    }

    pub fn new(frame_size: usize, key: &DecryptKey, frames: Range<u32>) -> (download: Result<
        FrameDownload,
        DownloadError,
    >)
        requires
            buffer_fits(frame_size as int),
            frames.start <= frames.end,
        ensures
            match download {
                Ok(d) => {
                    &&& frame_size > TAG_SIZE
                    &&& d.wf()
                    &&& d@ == (FrameDownloadView {
                        key: key@,
                        body: AssemblerView {
                            frame_size: frame_size as int,
                            fed: Seq::empty(),
                            taken: 0,
                        },
                        start: frames.start as int,
                        end: frames.end as int,
                    })
                },
                Err(e) => {
                    &&& frame_size <= TAG_SIZE
                    &&& e == DownloadError::Frame(FrameError::FrameTooSmall)
                },
            },
    {
        let decoder: FrameDecoder = match FrameDecoder::new(frame_size, key) {
            Ok(decoder) => decoder,
            Err(error) => {
                return Err(DownloadError::Frame(error));
            },
        };
        match FrameAssembler::new(frame_size) {
            Err(error) => Err(DownloadError::Frame(error)),
            Ok(assembler) => Ok(
                FrameDownload {
                    decoder,
                    assembler,
                    index: frames.start as u64,
                    end: frames.end as u64,
                    start: Ghost(frames.start as int),
                },
            ),
        }
    }

    /// Takes a chunk of the body.
    pub fn push(&mut self, chunk: Bytes)
        requires
            old(self).wf(),
            buffer_fits((old(self)@.body.pending().len() + contents(chunk).len()) as int),
        ensures
            final(self).wf(),
            final(self)@ == (FrameDownloadView {
                body: AssemblerView {
                    fed: old(self)@.body.fed + contents(chunk),
                    ..old(self)@.body
                },
                ..old(self)@
            }),
    {
        self.assembler.push(chunk);
    }

    /// The next plaintext frame that the body received so far holds.
    pub fn next_frame(&mut self) -> (frame: Result<Option<Bytes>, DownloadError>)
        requires
            old(self).wf(),
        ensures
            match frame {
                Ok(Some(payload)) => {
                    &&& old(self)@.body.pending().len() >= old(self)@.body.frame_size
                    &&& old(self)@.index() < old(self)@.end
                    &&& old(self)@.next_payload() == Some(contents(payload))
                    &&& contents(payload).len() == old(self)@.body.frame_size - TAG_SIZE
                    &&& final(self).wf()
                    &&& final(self)@ == (FrameDownloadView {
                        body: AssemblerView {
                            taken: old(self)@.body.taken + 1,
                            ..old(self)@.body
                        },
                        ..old(self)@
                    })
                },
                Ok(None) => {
                    &&& old(self)@.body.pending().len() < old(self)@.body.frame_size
                    &&& final(self).wf()
                    &&& final(self)@ == old(self)@
                },
                Err(DownloadError::TooManyBytes) => {
                    &&& old(self)@.body.pending().len() >= old(self)@.body.frame_size
                    &&& old(self)@.index() == old(self)@.end
                },
                Err(e) => {
                    &&& e == DownloadError::Frame(FrameError::AuthenticationFailed)
                    &&& old(self)@.body.pending().len() >= old(self)@.body.frame_size
                    &&& old(self)@.index() < old(self)@.end
                    &&& old(self)@.next_payload() is None
                },
            },
    {
        let frame: BytesMut = match self.assembler.next_frame_mut() {
            Some(frame) => frame,
            None => {
                return Ok(None);
            },
        };
        if self.index >= self.end {
            return Err(DownloadError::TooManyBytes);
        }
        match self.decoder.decode_frame(frame, self.index) {
            Err(error) => Err(DownloadError::Frame(error)),
            Ok(payload) => {
                self.index = self.index + 1;
                Ok(Some(payload))
            },
        }
    }

    /// Checks that the body ended with its last requested frame.
    pub fn finish(self) -> (end: Result<(), DownloadError>)
        requires
            self.wf(),
        ensures
            match end {
                Ok(_) => self@.body.pending().len() == 0 && self@.index() == self@.end,
                Err(DownloadError::EndedEarly) => {
                    &&& self@.body.pending().len() == 0
                    &&& self@.index() < self@.end
                },
                Err(e) => {
                    &&& self@.body.pending().len() > 0
                    &&& e == DownloadError::Frame(
                        FrameError::IncompleteFrame {
                            expected: self@.body.frame_size as usize,
                            actual: self@.body.pending().len() as usize,
                        },
                    )
                },
            },
    {
        match self.assembler.finish() {
            Err(error) => Err(DownloadError::Frame(error)),
            Ok(_) => {
                if self.index != self.end {
                    Err(DownloadError::EndedEarly)
                } else {
                    Ok(())
                }
            },
        }
    }
}

/// The frames of a download are numbered from its first one on: the next frame stands
/// behind those that were taken and is opened under its own number.
pub proof fn law_downloads_number_their_frames(download: FrameDownloadView)
    requires
        download.wf(),
    ensures
        ({
            let size = download.body.frame_size;
            let number = download.start + download.body.taken;
            &&& download.index() == number
            &&& download.next_payload() == frame_payload(
                download.key,
                download.body.fed.subrange(
                    download.body.taken * size,
                    download.body.taken * size + size,
                ),
                number as u64,
            )
            &&& download.body.pending().len() == download.body.fed.len() - download.body.taken
                * size
        }),
{
    let size = download.body.frame_size;
    let taken = download.body.taken;
    assert((taken + 1) * size == taken * size + size) by (nonlinear_arith);
}

} // verus!
