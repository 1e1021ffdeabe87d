//! Physical frames: cutting a body into frames, and the codec of one frame.
use bytes::{Bytes, BytesMut};
use vstd::prelude::*;

use crate::buffer::{buffer_fits, bytes_mut_slice, bytes_slice, contents, contents_mut};
use crate::crypto::{gcm_opened, gcm_sealed, open_sealed, seal, MAX_PLAINTEXT};
use crate::join::{joined, lemma_joined_cut};
use crate::request::DecryptKey;
use crate::text::{decimal, push_decimal, push_text};

verus! {

pub const TAG_SIZE: usize = 16;

#[derive(Clone, Copy, Debug, PartialEq, Eq, Structural)]
pub enum FrameError {
    ZeroFrameSize,
    FrameTooSmall,
    InvalidFrameSize { expected: usize, actual: usize },
    AuthenticationFailed,
    IncompleteFrame { expected: usize, actual: usize },
    UnexpectedPayloadSize { expected: usize, actual: usize },
    FrameOutsidePlan { frame_index: u64 },
}

impl FrameError {
    pub open spec fn text(self) -> Seq<char> {
        match self {
            FrameError::ZeroFrameSize => "frame size must be greater than zero"@,
            FrameError::FrameTooSmall => "frame size must be greater than the 16-byte tag"@,
            FrameError::InvalidFrameSize { expected, actual } => "invalid frame size: expected "@
                + decimal(expected as nat) + " bytes, got "@ + decimal(actual as nat),
            FrameError::AuthenticationFailed => "frame authentication failed"@,
            FrameError::IncompleteFrame { expected, actual } =>
            "HTTP body ended with an incomplete frame: expected "@ + decimal(expected as nat)
                + " bytes, got "@ + decimal(actual as nat),
            FrameError::UnexpectedPayloadSize { expected, actual } => "decoded frame has "@
                + decimal(actual as nat) + " bytes; expected "@ + decimal(expected as nat),
            FrameError::FrameOutsidePlan { frame_index } => "frame "@ + decimal(
                frame_index as nat,
            ) + " is outside this object read plan"@,
        }
    }

    pub fn message(&self) -> (text: String)
        ensures
            text@ == self.text(),
    {
        let mut text: String = String::new();
        match self {
            FrameError::ZeroFrameSize => push_text(
                &mut text,
                "frame size must be greater than zero",
            ),
            FrameError::FrameTooSmall => push_text(
                &mut text,
                "frame size must be greater than the 16-byte tag",
            ),
            FrameError::InvalidFrameSize { expected, actual } => {
                push_text(&mut text, "invalid frame size: expected ");
                push_decimal(&mut text, *expected as u64);
                push_text(&mut text, " bytes, got ");
                push_decimal(&mut text, *actual as u64);
            },
            FrameError::AuthenticationFailed => push_text(
                &mut text,
                "frame authentication failed",
            ),
            FrameError::IncompleteFrame { expected, actual } => {
                push_text(&mut text, "HTTP body ended with an incomplete frame: expected ");
                push_decimal(&mut text, *expected as u64);
                push_text(&mut text, " bytes, got ");
                push_decimal(&mut text, *actual as u64);
            },
            FrameError::UnexpectedPayloadSize { expected, actual } => {
                push_text(&mut text, "decoded frame has ");
                push_decimal(&mut text, *actual as u64);
                push_text(&mut text, " bytes; expected ");
                push_decimal(&mut text, *expected as u64);
            },
            FrameError::FrameOutsidePlan { frame_index } => {
                push_text(&mut text, "frame ");
                push_decimal(&mut text, *frame_index);
                push_text(&mut text, " is outside this object read plan");
            },
        }
        assert(text@ =~= self.text());
        text
    }
}

/// What an assembler is: the frame size, everything it was fed, and how many
/// frames it handed out.
pub struct AssemblerView {
    pub frame_size: int,
    pub fed: Seq<u8>,
    pub taken: int,
}

impl AssemblerView {
    /// The bytes not handed out yet.
    pub open spec fn pending(self) -> Seq<u8> {
        self.fed.skip(self.taken * self.frame_size)
    }

    pub open spec fn wf(self) -> bool {
        &&& self.frame_size > 0
        &&& self.taken >= 0
        &&& self.taken * self.frame_size <= self.fed.len()
    }

    /// The bytes of frame number `index` of the body.
    pub open spec fn frame(self, index: int) -> Seq<u8> {
        self.fed.subrange(index * self.frame_size, (index + 1) * self.frame_size)
    }
}

/// Turns arbitrarily-sized body chunks into complete physical frames.
pub struct FrameAssembler {
    frame_size: usize,
    pending: BytesMut,
    fed: Ghost<Seq<u8>>,
    taken: Ghost<int>,
}

impl View for FrameAssembler {
    type V = AssemblerView;

    closed spec fn view(&self) -> AssemblerView {
        AssemblerView { frame_size: self.frame_size as int, fed: self.fed@, taken: self.taken@ }
    }
}

impl FrameAssembler {
    /// The buffer holds exactly the bytes not handed out yet.
    pub closed spec fn buffers_pending(self) -> bool {
        contents_mut(self.pending) == self@.pending()
    }

    pub open spec fn wf(self) -> bool {
        self@.wf() && self.buffers_pending()
    }

    pub fn new(frame_size: usize) -> (assembler: Result<FrameAssembler, FrameError>)
        requires
            buffer_fits(frame_size as int),
        ensures
            match assembler {
                Ok(a) => {
                    &&& frame_size > 0
                    &&& a.wf()
                    &&& a@ == (AssemblerView {
                        frame_size: frame_size as int,
                        fed: Seq::empty(),
                        taken: 0,
                    })
                },
                Err(e) => frame_size == 0 && e == FrameError::ZeroFrameSize,
            },
    {
        if frame_size == 0 {
            return Err(FrameError::ZeroFrameSize);
        }
        let assembler: FrameAssembler = FrameAssembler {
            frame_size,
            pending: BytesMut::with_capacity(frame_size),
            fed: Ghost(Seq::empty()),
            taken: Ghost(0),
        };
        assert(assembler@.pending() =~= Seq::<u8>::empty());
        Ok(assembler)
    }

    pub fn push(&mut self, chunk: Bytes)
        requires
            old(self).wf(),
            buffer_fits((old(self)@.pending().len() + contents(chunk).len()) as int),
        ensures
            final(self).wf(),
            final(self)@ == (AssemblerView {
                fed: old(self)@.fed + contents(chunk),
                ..old(self)@
            }),
    {
        self.pending.extend_from_slice(bytes_slice(&chunk));
        proof {
            let from = self@.taken * self@.frame_size;
            let before = self.fed@;
            self.fed@ = before + contents(chunk);
            assert(self.fed@.skip(from) =~= before.skip(from) + contents(chunk));
        }
    }

    pub fn next_frame(&mut self) -> (frame: Option<Bytes>)
        requires
            old(self).wf(),
        ensures
            final(self).wf(),
            match frame {
                Some(f) => {
                    &&& old(self)@.pending().len() >= old(self)@.frame_size
                    &&& contents(f) == old(self)@.frame(old(self)@.taken)
                    &&& contents(f).len() == old(self)@.frame_size
                    &&& final(self)@ == (AssemblerView {
                        taken: old(self)@.taken + 1,
                        ..old(self)@
                    })
                },
                None => {
                    &&& old(self)@.pending().len() < old(self)@.frame_size
                    &&& final(self)@ == old(self)@
                },
            },
    {
        match self.next_frame_mut() {
            Some(frame) => Some(frame.freeze()),
            None => None,
        }
    }

    pub fn next_frame_mut(&mut self) -> (frame: Option<BytesMut>)
        requires
            old(self).wf(),
        ensures
            final(self).wf(),
            match frame {
                Some(f) => {
                    &&& old(self)@.pending().len() >= old(self)@.frame_size
                    &&& contents_mut(f) == old(self)@.frame(old(self)@.taken)
                    &&& contents_mut(f).len() == old(self)@.frame_size
                    &&& final(self)@ == (AssemblerView {
                        taken: old(self)@.taken + 1,
                        ..old(self)@
                    })
                },
                None => {
                    &&& old(self)@.pending().len() < old(self)@.frame_size
                    &&& final(self)@ == old(self)@
                },
            },
    {
        if self.pending.len() >= self.frame_size {
            let frame: BytesMut = self.pending.split_to(self.frame_size);
            proof {
                let size = self@.frame_size;
                let taken = self.taken@;
                assert((taken + 1) * size == taken * size + size) by (nonlinear_arith);
                assert(self.fed@.skip(taken * size).take(size) =~= self@.frame(taken));
                assert(self.fed@.skip(taken * size).skip(size) =~= self.fed@.skip(
                    (taken + 1) * size,
                ));
                self.taken@ = taken + 1;
            }
            Some(frame)
        } else {
            None
        }
    }

    pub fn pending_len(&self) -> (len: usize)
        requires
            self.wf(),
        ensures
            len == self@.pending().len(),
    {
        self.pending.len()
    }

    /// Verifies that the body ended exactly on a frame boundary.
    pub fn finish(self) -> (end: Result<(), FrameError>)
        requires
            self.wf(),
        ensures
            match end {
                Ok(_) => self@.pending().len() == 0,
                Err(e) => {
                    &&& self@.pending().len() > 0
                    &&& e == (FrameError::IncompleteFrame {
                        expected: self@.frame_size as usize,
                        actual: self@.pending().len() as usize,
                    })
                },
            },
    {
        if self.pending.is_empty() {
            Ok(())
        } else {
            Err(
                FrameError::IncompleteFrame {
                    expected: self.frame_size,
                    actual: self.pending.len(),
                },
            )
        }
    }
}

/// The frames of a body depend on its bytes alone: pushing two chunks feeds
/// what pushing them as one would.
pub proof fn law_chunk_boundaries_do_not_matter(
    assembler: AssemblerView,
    first: Seq<u8>,
    second: Seq<u8>,
)
    ensures
        (AssemblerView { fed: assembler.fed + first + second, ..assembler }) == (AssemblerView {
            fed: assembler.fed + (first + second),
            ..assembler
        }),
{
    assert(assembler.fed + first + second =~= assembler.fed + (first + second));
}

/// The nonce of a frame: four zero bytes and its number, big end first.
pub open spec fn nonce_of(index: u64) -> Seq<u8> {
    seq![
        0u8,
        0u8,
        0u8,
        0u8,
        (index / 0x100_0000_0000_0000 % 256) as u8,
        (index / 0x1_0000_0000_0000 % 256) as u8,
        (index / 0x100_0000_0000 % 256) as u8,
        (index / 0x1_0000_0000 % 256) as u8,
        (index / 0x100_0000 % 256) as u8,
        (index / 0x1_0000 % 256) as u8,
        (index / 0x100 % 256) as u8,
        (index % 256) as u8,
    ]
}

fn nonce(index: u64) -> (nonce: [u8; 12])
    ensures
        nonce@ == nonce_of(index),
{
    let nonce: [u8; 12] = [
        0,
        0,
        0,
        0,
        (index / 0x100_0000_0000_0000 % 256) as u8,
        (index / 0x1_0000_0000_0000 % 256) as u8,
        (index / 0x100_0000_0000 % 256) as u8,
        (index / 0x1_0000_0000 % 256) as u8,
        (index / 0x100_0000 % 256) as u8,
        (index / 0x1_0000 % 256) as u8,
        (index / 0x100 % 256) as u8,
        (index % 256) as u8,
    ];
    assert(nonce@ =~= nonce_of(index));
    nonce
}

/// The plaintext of a physical frame, `tag || ciphertext`, under a key and a
/// frame number; nothing where the frame does not authenticate.
pub open spec fn frame_payload(key: Seq<u8>, frame: Seq<u8>, index: u64) -> Option<Seq<u8>> {
    gcm_opened(key, nonce_of(index), frame.skip(TAG_SIZE as int), frame.take(TAG_SIZE as int))
}

/// The physical frame of a plaintext.
pub open spec fn sealed_frame(key: Seq<u8>, payload: Seq<u8>, index: u64) -> Seq<u8> {
    let (ciphertext, tag) = gcm_sealed(key, nonce_of(index), payload);
    tag + ciphertext
}

/// What a codec is: the physical frame size and the key.
pub struct CodecView {
    pub frame_size: int,
    pub key: Seq<u8>,
}

/// Decoder for one object. Frames are `tag || ciphertext`.
pub struct FrameDecoder {
    frame_size: usize,
    key: DecryptKey,
}

impl View for FrameDecoder {
    type V = CodecView;

    closed spec fn view(&self) -> CodecView {
        CodecView { frame_size: self.frame_size as int, key: self.key@ }
    }
}

impl FrameDecoder {
    pub open spec fn wf(self) -> bool {
        TAG_SIZE < self@.frame_size <= usize::MAX
    }

    pub fn new(frame_size: usize, key: &DecryptKey) -> (decoder: Result<FrameDecoder, FrameError>)
        ensures
            match decoder {
                Ok(d) => d.wf() && d@ == (CodecView { frame_size: frame_size as int, key: key@ }),
                Err(e) => frame_size <= TAG_SIZE && e == FrameError::FrameTooSmall,
            },
    {
        if frame_size <= TAG_SIZE {
            return Err(FrameError::FrameTooSmall);
        }
        Ok(FrameDecoder { frame_size, key: key.clone() })
    }

    pub fn decode_frame(&self, encrypted_frame: BytesMut, local_frame_index: u64) -> (payload:
        Result<Bytes, FrameError>)
        requires
            self.wf(),
        ensures
            match payload {
                Ok(p) => {
                    &&& contents_mut(encrypted_frame).len() == self@.frame_size
                    &&& frame_payload(
                        self@.key,
                        contents_mut(encrypted_frame),
                        local_frame_index,
                    ) == Some(contents(p))
                    &&& contents(p).len() == self@.frame_size - TAG_SIZE
                },
                Err(FrameError::InvalidFrameSize { expected, actual }) => {
                    &&& contents_mut(encrypted_frame).len() != self@.frame_size
                    &&& expected == self@.frame_size
                    &&& actual == contents_mut(encrypted_frame).len()
                },
                Err(e) => {
                    &&& e == FrameError::AuthenticationFailed
                    &&& contents_mut(encrypted_frame).len() == self@.frame_size
                    &&& frame_payload(
                        self@.key,
                        contents_mut(encrypted_frame),
                        local_frame_index,
                    ) is None
                },
            },
    {
        let mut tag: BytesMut = encrypted_frame;
        if tag.len() != self.frame_size {
            return Err(
                FrameError::InvalidFrameSize { expected: self.frame_size, actual: tag.len() },
            );
        }
        let mut payload: BytesMut = tag.split_off(TAG_SIZE);
        let nonce: [u8; 12] = nonce(local_frame_index);
        if open_sealed(self.key.as_bytes(), &nonce, &mut payload, bytes_mut_slice(&tag)) {
            Ok(payload.freeze())
        } else {
            Err(FrameError::AuthenticationFailed)
        }
    }
}

/// Encoder for one object, the inverse of `FrameDecoder`.
pub struct FrameEncoder {
    frame_size: usize,
    key: DecryptKey,
}

impl View for FrameEncoder {
    type V = CodecView;

    closed spec fn view(&self) -> CodecView {
        CodecView { frame_size: self.frame_size as int, key: self.key@ }
    }
}

impl FrameEncoder {
    pub open spec fn wf(self) -> bool {
        TAG_SIZE < self@.frame_size <= usize::MAX
    }

    pub fn new(frame_size: usize, key: &DecryptKey) -> (encoder: Result<FrameEncoder, FrameError>)
        ensures
            match encoder {
                Ok(e) => e.wf() && e@ == (CodecView { frame_size: frame_size as int, key: key@ }),
                Err(e) => frame_size <= TAG_SIZE && e == FrameError::FrameTooSmall,
            },
    {
        if frame_size <= TAG_SIZE {
            return Err(FrameError::FrameTooSmall);
        }
        Ok(FrameEncoder { frame_size, key: key.clone() })
    }

    /// Encrypts one full payload. Decoding the frame under the same key and
    /// frame number gives the payload back.
    pub fn encode_frame(&self, payload: BytesMut, local_frame_index: u64) -> (frame: Result<
        Bytes,
        FrameError,
    >)
        requires
            self.wf(),
            buffer_fits(self@.frame_size),
        ensures
            match frame {
                Ok(f) => {
                    &&& contents_mut(payload).len() == self@.frame_size - TAG_SIZE
                    &&& contents(f) == sealed_frame(
                        self@.key,
                        contents_mut(payload),
                        local_frame_index,
                    )
                    &&& contents(f).len() == self@.frame_size
                    &&& frame_payload(self@.key, contents(f), local_frame_index) == Some(
                        contents_mut(payload),
                    )
                },
                Err(FrameError::InvalidFrameSize { expected, actual }) => {
                    &&& contents_mut(payload).len() != self@.frame_size - TAG_SIZE
                    &&& expected == self@.frame_size - TAG_SIZE
                    &&& actual == contents_mut(payload).len()
                },
                Err(e) => {
                    &&& e == FrameError::AuthenticationFailed
                    &&& contents_mut(payload).len() == self@.frame_size - TAG_SIZE
                    &&& contents_mut(payload).len() > MAX_PLAINTEXT
                },
            },
    {
        if payload.len() != self.frame_size - TAG_SIZE {
            return Err(
                FrameError::InvalidFrameSize {
                    expected: self.frame_size - TAG_SIZE,
                    actual: payload.len(),
                },
            );
        }
        let mut ciphertext: BytesMut = payload;
        let nonce: [u8; 12] = nonce(local_frame_index);
        match seal(self.key.as_bytes(), &nonce, &mut ciphertext) {
            None => Err(FrameError::AuthenticationFailed),
            Some(tag) => {
                let mut frame: BytesMut = BytesMut::with_capacity(self.frame_size);
                frame.extend_from_slice(tag.as_slice());
                frame.extend_from_slice(bytes_mut_slice(&ciphertext));
                proof {
                    let whole = contents_mut(frame);
                    assert(whole.take(TAG_SIZE as int) =~= tag@);
                    assert(whole.skip(TAG_SIZE as int) =~= contents_mut(ciphertext));
                }
                Ok(frame.freeze())
            },
        }
    }
}

/// The bytes as one number, big end first.
pub open spec fn big_end_first(bytes: Seq<u8>) -> int
    decreases bytes.len(),
{
    if bytes.len() == 0 {
        0
    } else {
        big_end_first(bytes.drop_last()) * 256 + bytes.last()
    }
}

/// The nonce promise: the twelve bytes of a nonce are the number of its frame, big
/// end first, so that no two frames of an object share one.
pub proof fn law_nonces_are_frame_numbers(index: u64, other: u64)
    ensures
        nonce_of(index).len() == 12,
        big_end_first(nonce_of(index)) == index,
        nonce_of(index) == nonce_of(other) ==> index == other,
{
    lemma_nonce_number(index);
    lemma_nonce_number(other);
}

proof fn lemma_big_end_push(bytes: Seq<u8>, next: u8)
    ensures
        big_end_first(bytes.push(next)) == big_end_first(bytes) * 256 + next,
{
    assert(bytes.push(next).drop_last() =~= bytes);
}

proof fn lemma_next_byte(number: int, unit: int)
    requires
        0 <= number,
        0 < unit,
    ensures
        number / (unit * 256) * 256 + number / unit % 256 == number / unit,
{
    vstd::arithmetic::div_mod::lemma_div_denominator(number, unit, 256);
    vstd::arithmetic::div_mod::lemma_fundamental_div_mod(number / unit, 256);
}

proof fn lemma_nonce_number(index: u64)
    ensures
        big_end_first(nonce_of(index)) == index,
{
    let n = nonce_of(index);
    let i = index as int;
    let zeros = seq![0u8, 0u8, 0u8, 0u8];
    let none = Seq::<u8>::empty();
    lemma_big_end_push(none, 0);
    lemma_big_end_push(none.push(0), 0);
    lemma_big_end_push(none.push(0).push(0), 0);
    lemma_big_end_push(none.push(0).push(0).push(0), 0);
    assert(none.push(0).push(0).push(0).push(0) =~= zeros);
    assert(big_end_first(none) == 0);
    let a = zeros.push(n[4]);
    let b = a.push(n[5]);
    let c = b.push(n[6]);
    let d = c.push(n[7]);
    let e = d.push(n[8]);
    let f = e.push(n[9]);
    let g = f.push(n[10]);
    assert(n =~= g.push(n[11]));
    lemma_big_end_push(zeros, n[4]);
    lemma_big_end_push(a, n[5]);
    lemma_big_end_push(b, n[6]);
    lemma_big_end_push(c, n[7]);
    lemma_big_end_push(d, n[8]);
    lemma_big_end_push(e, n[9]);
    lemma_big_end_push(f, n[10]);
    lemma_big_end_push(g, n[11]);
    lemma_next_byte(i, 0x1_0000_0000_0000);
    lemma_next_byte(i, 0x100_0000_0000);
    lemma_next_byte(i, 0x1_0000_0000);
    lemma_next_byte(i, 0x100_0000);
    lemma_next_byte(i, 0x1_0000);
    lemma_next_byte(i, 0x100);
    lemma_next_byte(i, 1);
    assert(i / 0x100_0000_0000_0000 < 256);
}

/// The frame promise: a physical frame is the tag of sixteen bytes and the
/// ciphertext behind it, both under the nonce of its number.
pub proof fn law_frames_are_tag_then_ciphertext(
    key: Seq<u8>,
    payload: Seq<u8>,
    tag: Seq<u8>,
    ciphertext: Seq<u8>,
    index: u64,
)
    requires
        tag.len() == 16,
    ensures
        TAG_SIZE == 16,
        frame_payload(key, tag + ciphertext, index) == gcm_opened(
            key,
            nonce_of(index),
            ciphertext,
            tag,
        ),
        gcm_sealed(key, nonce_of(index), payload) == (ciphertext, tag) ==> sealed_frame(
            key,
            payload,
            index,
        ) == tag + ciphertext,
{
    assert((tag + ciphertext).take(16) =~= tag);
    assert((tag + ciphertext).skip(16) =~= ciphertext);
}

/// The assembly promise: the frames that were handed out and the bytes that were
/// not are, one after the other, exactly what was fed; and the next frame stands
/// at the front of what was not handed out.
pub proof fn law_frames_are_cut_in_order(view: AssemblerView)
    requires
        view.wf(),
    ensures
        view.fed == joined(Seq::new(view.taken as nat, |i: int| view.frame(i))) + view.pending(),
        view.pending().len() >= view.frame_size ==> view.frame(view.taken) == view.pending().take(
            view.frame_size,
        ),
{
    let size = view.frame_size;
    let taken = view.taken;
    let frames = Seq::new(taken as nat, |i: int| view.frame(i));
    assert((0 + taken) * size == taken * size && 0 * size == 0);
    assert((taken + 1) * size == taken * size + size) by (nonlinear_arith);
    assert forall|k: int| 0 <= k < frames.len() implies #[trigger] frames[k] == view.fed.subrange(
        (0 + k) * size,
        (0 + k + 1) * size,
    ) by {
        assert(frames[k] == view.frame(k));
    }
    assert(0 <= taken * size) by (nonlinear_arith)
        requires
            0 <= taken,
            0 < size,
    ;
    lemma_joined_cut(view.fed, frames, 0, size);
    assert(view.fed =~= joined(frames) + view.pending());
    if view.pending().len() >= size {
        assert(view.frame(taken) =~= view.pending().take(size));
    }
}

} // verus!
