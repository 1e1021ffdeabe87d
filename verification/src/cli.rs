//! Uploading a file in segments from the command line: sizes, chunks, retries
//! and the progress that is shown.
use bytes::{Bytes, BytesMut};
use vstd::prelude::*;

use crate::buffer::{buffer_fits, contents, contents_mut, slice_bytes};
use crate::byte::{ceil_div, div_ceil};
use crate::frame::TAG_SIZE;
use crate::stream::{at_least, at_most};
use crate::sums::total;
use crate::text::{chars_of, decimal, is_capital_of, push_decimal, push_text, text_between};

verus! {

/// Frames of one segment.
pub const FRAMES_PER_SEGMENT: usize = 150;

/// Attempts after the first before a segment is given up.
pub const MAX_RETRIES: u32 = 3;

/// The address without the slashes at its end.
pub open spec fn without_slashes(url: Seq<char>) -> Seq<char>
    decreases url.len(),
{
    if url.len() > 0 && url.last() == '/' {
        without_slashes(url.drop_last())
    } else {
        url
    }
}

/// Removes the slashes at the end of an address.
pub fn base_url(url: &str) -> (base: String)
    ensures
        base@ == without_slashes(url@),
{
    let chars: Vec<char> = chars_of(url);
    let mut end: usize = chars.len();
    proof {
        assert(chars@.take(end as int) =~= chars@);
    }
    while end > 0 && chars[end - 1] == '/'
        invariant
            end <= chars.len(),
            chars@ == url@,
            without_slashes(chars@.take(end as int)) == without_slashes(url@),
        decreases end,
    {
        proof {
            assert(chars@.take(end as int).drop_last() =~= chars@.take(end - 1));
        }
        end -= 1;
    }
    let base: String = text_between(&chars, 0, end);
    proof {
        assert(base@ =~= chars@.take(end as int));
    }
    base
}

/// Plaintext bytes of one segment; nothing where a frame holds no more than its
/// tag.
pub fn segment_size(frame_size: usize) -> (size: Option<usize>)
    requires
        frame_size * FRAMES_PER_SEGMENT <= usize::MAX,
    ensures
        match size {
            Some(s) => frame_size > TAG_SIZE && s == (frame_size - TAG_SIZE) * FRAMES_PER_SEGMENT,
            None => frame_size <= TAG_SIZE,
        },
{
    if frame_size <= TAG_SIZE {
        return None;
    }
    Some((frame_size - TAG_SIZE) * FRAMES_PER_SEGMENT)
}

/// Segments of a file.
pub fn total_blocks(total: Option<u64>, segment_size: u64) -> (blocks: Option<u64>)
    requires
        segment_size > 0,
    ensures
        match total {
            Some(size) => blocks matches Some(n) && n == ceil_div(
                size as int,
                segment_size as int,
            ),
            None => blocks is None,
        },
{
    match total {
        Some(size) => Some(div_ceil(size, segment_size)),
        None => None,
    }
}

/// The name that a file gets: the one asked for, or its own, or `stream`.
pub fn upload_name(asked: Option<String>, file_name: Option<String>) -> (name: String)
    ensures
        name@ == match asked {
            Some(text) => text@,
            None => match file_name {
                Some(text) => text@,
                None => "stream"@,
            },
        },
{
    match asked {
        Some(text) => text,
        None => match file_name {
            Some(text) => text,
            None => "stream".to_owned(),
        },
    }
}

/// Two to the power of a small number.
pub open spec fn power_of_two(n: nat) -> int
    decreases n,
{
    if n == 0 {
        1
    } else {
        2 * power_of_two((n - 1) as nat)
    }
}

/// Seconds to wait after an attempt failed: one, then twice as long each time;
/// nothing after the last attempt.
fn retry_delay(attempt: u32) -> (seconds: Option<u64>)
    ensures
        match seconds {
            Some(s) => attempt < MAX_RETRIES && s == power_of_two(attempt as nat),
            None => attempt >= MAX_RETRIES,
        },
{
    if attempt >= MAX_RETRIES {
        return None;
    }
    let mut seconds: u64 = 1;
    let mut i: u32 = 0;
    while i < attempt
        invariant
            i <= attempt < MAX_RETRIES,
            seconds == power_of_two(i as nat),
            seconds <= 8,
            i == 0 ==> seconds == 1,
            i == 1 ==> seconds == 2,
            i == 2 ==> seconds == 4,
        decreases attempt - i,
    {
        i += 1;
        seconds = seconds * 2;
    }
    Some(seconds)
}

/// What comes after an attempt to send a segment.
#[derive(Clone, Copy, Debug, PartialEq, Eq, Structural)]
pub enum AttemptStep {
    Done,
    /// Try again after this many seconds.
    Wait(u64),
    GiveUp,
}

/// Decides what comes after an attempt, counted from zero.
pub fn attempt_step(attempt: u32, succeeded: bool) -> (step: AttemptStep)
    ensures
        match step {
            AttemptStep::Done => succeeded,
            AttemptStep::Wait(seconds) => {
                &&& !succeeded
                &&& attempt < MAX_RETRIES
                &&& seconds == power_of_two(attempt as nat)
            },
            AttemptStep::GiveUp => !succeeded && attempt >= MAX_RETRIES,
        },
{
    if succeeded {
        return AttemptStep::Done;
    }
    match retry_delay(attempt) {
        Some(seconds) => AttemptStep::Wait(seconds),
        None => AttemptStep::GiveUp,
    }
}

/// What is said of a segment that was given up.
pub fn give_up_message(url: &str, last_error: &str) -> (text: String)
    ensures
        text@ == url@ + ": failed after "@ + decimal((MAX_RETRIES + 1) as nat) + " attempts: "@
            + last_error@,
{
    let mut text: String = String::new();
    push_text(&mut text, url);
    push_text(&mut text, ": failed after ");
    push_decimal(&mut text, MAX_RETRIES as u64 + 1);
    push_text(&mut text, " attempts: ");
    push_text(&mut text, last_error);
    assert(text@ =~= url@ + ": failed after "@ + decimal((MAX_RETRIES + 1) as nat)
        + " attempts: "@ + last_error@);
    text
}

/// The next chunk of a segment from `offset` on: at most one frame.
pub fn next_chunk(bytes: &Bytes, offset: usize, frame_size: usize) -> (chunk: Option<Bytes>)
    requires
        frame_size > 0,
    ensures
        match chunk {
            Some(part) => {
                &&& offset < contents(*bytes).len()
                &&& contents(part) == contents(*bytes).subrange(
                    offset as int,
                    at_most(offset + frame_size, contents(*bytes).len() as int),
                )
                &&& contents(part).len() > 0
            },
            None => offset >= contents(*bytes).len(),
        },
{
    let len: usize = bytes.len();
    if offset >= len {
        return None;
    }
    let end: usize = if frame_size <= len - offset { offset + frame_size } else { len };
    Some(slice_bytes(bytes, offset, end))
}

/// Bytes of all segments that were sent, while one of them is being sent. A
/// failed attempt takes its bytes back.
#[derive(Clone, Copy, Debug, PartialEq, Eq, Structural)]
pub struct SentBytes {
    pub uploaded: u64,
    pub counted: u64,
}

impl SentBytes {
    /// What the attempt counted is part of what was uploaded.
    pub open spec fn wf(self) -> bool {
        self.counted <= self.uploaded
    }

    /// The bytes after the attempt sent a chunk.
    pub open spec fn with_chunk(self, len: u64) -> SentBytes {
        SentBytes {
            uploaded: (self.uploaded + len) as u64,
            counted: (self.counted + len) as u64,
        }
    }

    /// The bytes after the attempt succeeded: the whole segment counts.
    pub open spec fn after_success(self, size: u64) -> int {
        self.uploaded - self.counted + at_least(size as int, self.counted as int)
    }

    /// The bytes after the attempt failed: none of it counts.
    pub open spec fn after_failure(self) -> int {
        self.uploaded - self.counted
    }

    /// Starts an attempt.
    pub fn begin(uploaded: u64) -> (sent: SentBytes)
        ensures
            sent.wf(),
            sent == (SentBytes { uploaded, counted: 0 }),
    {
        SentBytes { uploaded, counted: 0 }
    }

    /// Counts a chunk.
    pub fn chunk(&mut self, len: u64)
        requires
            old(self).wf(),
            old(self).uploaded + len <= u64::MAX,
        ensures
            final(self).wf(),
            *final(self) == old(self).with_chunk(len),
    {
        self.uploaded = self.uploaded + len;
        self.counted = self.counted + len;
    }

    /// Ends an attempt that succeeded.
    pub fn succeed(&self, size: u64) -> (uploaded: u64)
        requires
            self.wf(),
            self.after_success(size) <= u64::MAX,
        ensures
            uploaded == self.after_success(size),
    {
        self.uploaded + size.saturating_sub(self.counted)
    }

    /// Ends an attempt that failed.
    pub fn fail(&self) -> (uploaded: u64)
        requires
            self.wf(),
        ensures
            uploaded == self.after_failure(),
    {
        self.uploaded - self.counted
    }
}

/// An attempt after it sent the chunks.
pub open spec fn after_chunks(before: u64, chunks: Seq<u64>) -> SentBytes
    decreases chunks.len(),
{
    if chunks.len() == 0 {
        SentBytes { uploaded: before, counted: 0 }
    } else {
        after_chunks(before, chunks.drop_last()).with_chunk(chunks.last())
    }
}

/// The honesty promise: whatever chunks of a segment an attempt sent, a failed
/// one leaves the total as it was before, and a successful one adds the size of
/// the segment.
pub proof fn law_progress_stays_honest(before: u64, chunks: Seq<u64>, size: u64)
    requires
        total(chunks.map_values(|len: u64| len as int)) <= size,
        before + size <= u64::MAX,
    ensures
        after_chunks(before, chunks).after_failure() == before,
        after_chunks(before, chunks).after_success(size) == before + size,
{
    lemma_chunks_are_counted(before, chunks, size);
}

proof fn lemma_chunks_are_counted(before: u64, chunks: Seq<u64>, size: u64)
    requires
        total(chunks.map_values(|len: u64| len as int)) <= size,
        before + size <= u64::MAX,
    ensures
        after_chunks(before, chunks).counted == total(chunks.map_values(|len: u64| len as int)),
        after_chunks(before, chunks).uploaded == before + after_chunks(before, chunks).counted,
    decreases chunks.len(),
{
    let sizes = chunks.map_values(|len: u64| len as int);
    if chunks.len() > 0 {
        assert(sizes.drop_last() =~= chunks.drop_last().map_values(|len: u64| len as int));
        lemma_chunks_are_counted(before, chunks.drop_last(), size);
    }
}

/// The blocks that are shown as done.
pub fn blocks_message(done: u64, total: Option<u64>) -> (text: String)
    ensures
        text@ == match total {
            Some(all) => decimal(done as nat) + "/"@ + decimal(all as nat) + " blocks"@,
            None => decimal(done as nat) + " blocks"@,
        },
{
    let mut text: String = String::new();
    push_decimal(&mut text, done);
    if let Some(all) = total {
        push_text(&mut text, "/");
        push_decimal(&mut text, all);
    }
    push_text(&mut text, " blocks");
    assert(text@ =~= match total {
        Some(all) => decimal(done as nat) + "/"@ + decimal(all as nat) + " blocks"@,
        None => decimal(done as nat) + " blocks"@,
    });
    text
}

/// Gathers the bytes of one segment from a reader.
pub struct SegmentReader {
    size: usize,
    buffer: BytesMut,
}

/// What a segment reader is: the size of a segment, and the bytes read so far.
pub struct SegmentReaderView {
    pub size: int,
    pub bytes: Seq<u8>,
}

impl SegmentReaderView {
    pub open spec fn wf(self) -> bool {
        0 <= self.bytes.len() <= self.size && buffer_fits(self.size)
    }
}

impl View for SegmentReader {
    type V = SegmentReaderView;

    closed spec fn view(&self) -> SegmentReaderView {
        SegmentReaderView { size: self.size as int, bytes: contents_mut(self.buffer) }
    }
}

impl SegmentReader {
    pub fn new(size: usize) -> (reader: SegmentReader)
        requires
            buffer_fits(size as int),
        ensures
            reader@.wf(),
            reader@ == (SegmentReaderView { size: size as int, bytes: Seq::empty() }),
    {
        SegmentReader { size, buffer: BytesMut::with_capacity(size) }
    }

    /// Bytes that the segment still takes.
    pub fn wanted(&self) -> (bytes: usize)
        requires
            self@.wf(),
        ensures
            bytes == self@.size - self@.bytes.len(),
    {
        self.size - self.buffer.len()
    }

    /// Takes bytes that were read.
    pub fn push(&mut self, bytes: &[u8])
        requires
            old(self)@.wf(),
            old(self)@.bytes.len() + bytes@.len() <= old(self)@.size,
        ensures
            final(self)@.wf(),
            final(self)@ == (SegmentReaderView {
                bytes: old(self)@.bytes + bytes@,
                ..old(self)@
            }),
    {
        self.buffer.extend_from_slice(bytes);
    }

    /// The segment that was read; nothing where the reader was at its end.
    pub fn finish(self) -> (segment: Option<Bytes>)
        ensures
            match segment {
                Some(bytes) => contents(bytes) == self@.bytes && self@.bytes.len() > 0,
                None => self@.bytes.len() == 0,
            },
    {
        if self.buffer.is_empty() {
            None
        } else {
            Some(self.buffer.freeze())
        }
    }
}

/// A letter in upper case, and any other character as it is.
pub open spec fn ascii_upper(c: char) -> char {
    if 'a' <= c && c <= 'z' {
        ((c as int - 32) as u8) as char
    } else {
        c
    }
}

/// The name of a new access key, made of a unique identifier.
pub fn access_key_text(identifier: &str) -> (key: String)
    ensures
        key@ == "SS"@ + identifier@.map_values(|c: char| ascii_upper(c)),
{
    let chars: Vec<char> = chars_of(identifier);
    let ghost upper = identifier@.map_values(|c: char| ascii_upper(c));
    let mut key: String = String::new();
    push_text(&mut key, "SS");
    let ghost head = key@;
    let mut i: usize = 0;
    proof {
        assert(head + upper.take(0) =~= head);
    }
    while i < chars.len()
        invariant
            chars@ == identifier@,
            upper == identifier@.map_values(|c: char| ascii_upper(c)),
            i <= chars.len(),
            key@ == head + upper.take(i as int),
        decreases chars.len() - i,
    {
        let c: char = chars[i];
        let shown: char = if 'a' <= c && c <= 'z' { (c as u8 - 32) as char } else { c };
        key.push(shown);
        proof {
            assert(upper.take(i + 1) =~= upper.take(i as int).push(upper[i as int]));
            assert(key@ =~= head + upper.take(i + 1));
        }
        i += 1;
    }
    proof {
        assert(upper.take(i as int) =~= upper);
        assert(key@ =~= "SS"@ + upper);
    }
    key
}

/// An address loses the slashes at its end, all of them and nothing else.
pub proof fn law_only_slashes_are_removed(url: Seq<char>)
    ensures
        without_slashes(url).len() <= url.len(),
        without_slashes(url) == url.take(without_slashes(url).len() as int),
        forall|i: int| without_slashes(url).len() <= i < url.len() ==> #[trigger] url[i] == '/',
        without_slashes(url).len() > 0 ==> without_slashes(url).last() != '/',
    decreases url.len(),
{
    if url.len() > 0 && url.last() == '/' {
        let shorter = url.drop_last();
        law_only_slashes_are_removed(shorter);
        let kept = without_slashes(url).len() as int;
        assert(shorter.take(kept) =~= url.take(kept));
        assert forall|i: int| kept <= i < url.len() implies #[trigger] url[i] == '/' by {
            if i < shorter.len() {
                assert(shorter[i] == url[i]);
            }
        }
    } else {
        assert(url.take(url.len() as int) =~= url);
    }
}

/// A segment is tried four times. The first wait is a second, and each is twice
/// the one before.
pub proof fn law_waits_double(attempt: nat)
    ensures
        MAX_RETRIES == 3,
        power_of_two(0) == 1,
        power_of_two(attempt + 1) == 2 * power_of_two(attempt),
{
}

/// A successful attempt never takes progress back, and a failed one takes exactly
/// its own back.
pub proof fn law_attempts_count_their_own(sent: SentBytes, size: u64)
    requires
        sent.wf(),
    ensures
        sent.after_failure() + sent.counted == sent.uploaded,
        sent.after_success(size) >= sent.uploaded,
        size >= sent.counted ==> sent.after_success(size) == sent.uploaded - sent.counted + size,
        size <= sent.counted ==> sent.after_success(size) == sent.uploaded,
{
}

/// A chunk counts once, for the attempt and for the whole.
pub proof fn law_chunks_count_once(sent: SentBytes, len: u64)
    requires
        sent.wf(),
        sent.uploaded + len <= u64::MAX,
    ensures
        sent.with_chunk(len).uploaded == sent.uploaded + len,
        sent.with_chunk(len).counted == sent.counted + len,
{
}

/// Small letters become their capitals, and nothing else changes.
pub proof fn law_small_letters_become_capitals(c: char)
    ensures
        'a' <= c <= 'z' ==> is_capital_of(ascii_upper(c), c),
        !('a' <= c <= 'z') ==> ascii_upper(c) == c,
{
}

} // verus!
