//! The rules of the object store: permissions, uploads in segments, multipart
//! completion, listings, ranges and the names of its errors.
//!
//! The caller reads and writes the catalog and moves the bytes.
use std::ops::Range;

use base64::Engine;
use bytes::{Bytes, BytesMut};
use vstd::prelude::*;

use crate::buffer::{buffer_fits, bytes_slice, contents, contents_mut};
use crate::catalog::key_array;
use crate::frame::TAG_SIZE;
use crate::hash::{md5_fed, md5_finalize, md5_new, md5_of, md5_update, Md5Hasher};
use crate::http::{content_range, content_range_text, hex, hex_text};
use crate::join::{joined, lemma_joined_push};
use crate::request::{DecryptKey, ObjectId, ObjectMeta};
use crate::stream::{at_least, at_most, SignedUrl, SignedUrlView};
use crate::text::{
    chars_of, decimal, digit_value, find_from, find_text, law_the_first_place_is_found,
    lemma_find_from, lemma_find_none, push_decimal, push_text, same_text, text_between,
};
use crate::sums::total;
use crate::upload::StoredObject;

verus! {

/// The errors of the object store, by their S3 names.
#[derive(Clone, Copy, Debug, PartialEq, Eq, Structural)]
pub enum S3Code {
    AccessDenied,
    BadDigest,
    BucketAlreadyExists,
    BucketNotEmpty,
    EntityTooLarge,
    EntityTooSmall,
    InternalError,
    InvalidArgument,
    InvalidPart,
    InvalidPartOrder,
    InvalidRange,
    NoSuchKey,
    NoSuchUpload,
}

/// All parts of a multipart upload but the last hold at least this many bytes.
pub const MIN_MULTIPART_PART: u64 = 5_242_880;

/// Part numbers run from one to this.
pub const MAX_PART_NUMBER: i32 = 10_000;

/// Most keys of one page of a listing.
pub const MAX_PAGE: i32 = 1_000;

/// Unreferenced segments are kept for this many seconds.
pub const GARBAGE_AGE: i64 = 3_600;

/// Whether a key may read a bucket: it has a grant, which says whether it may
/// also write.
pub fn read_allowed(grant: Option<bool>) -> (allowed: Result<(), S3Code>)
    ensures
        match allowed {
            Ok(_) => grant is Some,
            Err(e) => grant is None && e == S3Code::AccessDenied,
        },
{
    match grant {
        Some(_) => Ok(()),
        None => Err(S3Code::AccessDenied),
    }
}

/// Whether a key may write a bucket.
pub fn write_allowed(grant: Option<bool>) -> (allowed: Result<(), S3Code>)
    ensures
        match allowed {
            Ok(_) => grant == Some(true),
            Err(e) => grant != Some(true) && e == S3Code::AccessDenied,
        },
{
    match grant {
        Some(true) => Ok(()),
        _ => Err(S3Code::AccessDenied),
    }
}

/// Whether a key may create a bucket under a name.
pub fn create_allowed(can_create_buckets: bool, exists: bool) -> (allowed: Result<(), S3Code>)
    ensures
        match allowed {
            Ok(_) => can_create_buckets && !exists,
            Err(e) => if !can_create_buckets {
                e == S3Code::AccessDenied
            } else {
                exists && e == S3Code::BucketAlreadyExists
            },
        },
{
    if !can_create_buckets {
        return Err(S3Code::AccessDenied);
    }
    if exists {
        return Err(S3Code::BucketAlreadyExists);
    }
    Ok(())
}

/// Whether a bucket with `held` objects and uploads may be deleted.
pub fn delete_allowed(held: i64) -> (allowed: Result<(), S3Code>)
    ensures
        match allowed {
            Ok(_) => held == 0,
            Err(e) => held != 0 && e == S3Code::BucketNotEmpty,
        },
{
    if held != 0 {
        Err(S3Code::BucketNotEmpty)
    } else {
        Ok(())
    }
}

/// What the catalog holds of a stored segment.
#[derive(Debug)]
pub struct SegmentRecord {
    pub id: String,
    pub stored: StoredObject,
    pub decrypt_key: [u8; 32],
    pub frame_count: u32,
    pub plaintext_size: u64,
}

impl Clone for SegmentRecord {
    fn clone(&self) -> (copy: Self)
        ensures
            copy == *self,
    {
        SegmentRecord {
            id: self.id.clone(),
            stored: self.stored.clone(),
            decrypt_key: self.decrypt_key,
            frame_count: self.frame_count,
            plaintext_size: self.plaintext_size,
        }
    }
}

impl SegmentRecord {
    pub fn object_meta(&self) -> (meta: ObjectMeta)
        ensures
            meta.id@ == self.id@,
            meta.uri == self.stored.uri,
            meta.frame_count == self.frame_count,
            meta.decrypt_key@ == self.decrypt_key@,
    {
        ObjectMeta {
            id: ObjectId::new(self.id.as_str()),
            uri: self.stored.uri.clone(),
            frame_count: self.frame_count,
            decrypt_key: DecryptKey::new(self.decrypt_key),
        }
    }
}

/// The columns of a segment as the catalog stores them.
pub struct SegmentColumns {
    pub id: String,
    pub uri: String,
    pub decrypt_key: Vec<u8>,
    pub cached_url: Option<String>,
    pub cached_url_expires_at: Option<i64>,
    pub frame_count: i64,
    pub plaintext_size: i64,
}

/// Rebuilds a segment from its columns; nothing where its key is not one.
pub fn segment_from_row(row: SegmentColumns) -> (segment: Option<SegmentRecord>)
    requires
        0 <= row.frame_count <= u32::MAX,
        0 <= row.plaintext_size,
        row.cached_url_expires_at matches Some(time) ==> time >= 0,
    ensures
        match segment {
            Some(s) => {
                &&& s.id == row.id
                &&& s.stored.uri == row.uri
                &&& s.decrypt_key@ == row.decrypt_key@
                &&& s.frame_count == row.frame_count
                &&& s.plaintext_size == row.plaintext_size
                &&& match row.cached_url {
                    Some(url) => s.stored.cached_url matches Some(u) && u@ == (SignedUrlView {
                        value: url@,
                        expires_at: match row.cached_url_expires_at {
                            Some(time) => Some(time as u64),
                            None => None,
                        },
                    }),
                    None => s.stored.cached_url is None,
                }
            },
            None => row.decrypt_key@.len() != 32,
        },
{
    if row.decrypt_key.len() != 32 {
        return None;
    }
    let expires_at: Option<u64> = match row.cached_url_expires_at {
        Some(time) => Some(time as u64),
        None => None,
    };
    let cached_url: Option<SignedUrl> = match &row.cached_url {
        Some(url) => Some(SignedUrl::new(url.as_str(), expires_at)),
        None => None,
    };
    Some(
        SegmentRecord {
            decrypt_key: key_array(&row.decrypt_key),
            id: row.id,
            stored: StoredObject { uri: row.uri, cached_url },
            frame_count: row.frame_count as u32,
            plaintext_size: row.plaintext_size as u64,
        },
    )
}

#[derive(Clone, Debug)]
pub struct ObjectSummary {
    pub key: String,
    pub size: u64,
    pub etag: String,
    pub created_at: i64,
}

#[derive(Debug)]
pub struct PartRecord {
    pub number: i32,
    pub size: u64,
    pub etag: String,
    pub segments: Vec<SegmentRecord>,
}

/// A part that the completion of a multipart upload names.
#[derive(Debug)]
pub struct RequestedPart {
    pub number: Option<i32>,
    pub etag: Option<String>,
}

/// What a body segmenter is: the most bytes of a segment and of the body, and
/// the body received so far.
pub struct SegmenterView {
    pub segment_size: int,
    pub max_size: int,
    pub body: Seq<u8>,
}

impl SegmenterView {
    pub open spec fn full_segments(self) -> int {
        self.body.len() as int / self.segment_size
    }

    pub open spec fn wf(self) -> bool {
        &&& 0 < self.segment_size
        &&& buffer_fits(self.segment_size)
        &&& 0 <= self.max_size <= u64::MAX
        &&& self.body.len() <= self.max_size
    }
}

/// Cuts a body into segments and hashes it.
pub struct BodySegmenter {
    segment_size: usize,
    max_size: u64,
    pending: BytesMut,
    size: u64,
    md5: Md5Hasher,
    body: Ghost<Seq<u8>>,
    done: Ghost<int>,
}

impl View for BodySegmenter {
    type V = SegmenterView;

    closed spec fn view(&self) -> SegmenterView {
        SegmenterView {
            segment_size: self.segment_size as int,
            max_size: self.max_size as int,
            body: self.body@,
        }
    }
}

/// The end of a body: its last segment where the body does not fill it, its
/// size, and its MD5 hash.
pub struct SegmentedBody {
    pub last: Option<Bytes>,
    pub size: u64,
    pub digest: [u8; 16],
}

impl BodySegmenter {
    /// The counters and buffers are those of the body received so far.
    pub closed spec fn in_step(self) -> bool {
        &&& self.size == self.body@.len()
        &&& md5_fed(self.md5) == self.body@
        &&& self.done@ == self@.full_segments()
        &&& 0 <= self.done@
        &&& self.done@ * self.segment_size <= self.body@.len()
        &&& self.body@.len() < (self.done@ + 1) * self.segment_size
        &&& contents_mut(self.pending) == self.body@.skip(self.done@ * self.segment_size)
    }

    pub open spec fn wf(self) -> bool {
        self@.wf() && self.in_step()
    }

    /// Starts cutting; the error is that segments hold nothing.
    pub fn new(segment_size: usize, max_size: u64) -> (segmenter: Result<BodySegmenter, S3Code>)
        requires
            buffer_fits(segment_size as int),
        ensures
            match segmenter {
                Ok(s) => {
                    &&& segment_size > 0
                    &&& s.wf()
                    &&& s@ == (SegmenterView {
                        segment_size: segment_size as int,
                        max_size: max_size as int,
                        body: Seq::empty(),
                    })
                },
                Err(e) => segment_size == 0 && e == S3Code::InternalError,
            },
    {
        if segment_size == 0 {
            return Err(S3Code::InternalError);
        }
        let segmenter: BodySegmenter = BodySegmenter {
            segment_size,
            max_size,
            pending: BytesMut::with_capacity(segment_size),
            size: 0,
            md5: md5_new(),
            body: Ghost(Seq::empty()),
            done: Ghost(0),
        };
        proof {
            assert(segmenter.body@.skip(0) =~= Seq::<u8>::empty());
            assert(0int / (segment_size as int) == 0) by (nonlinear_arith)
                requires
                    segment_size > 0,
            ;
            assert(0 * segment_size == 0 && 1 * segment_size == segment_size);
        }
        Ok(segmenter)
    }

    /// Takes a chunk of the body and returns the segments that it completes.
    pub fn push(&mut self, chunk: &Bytes) -> (segments: Result<Vec<Bytes>, S3Code>)
        requires
            old(self).wf(),
        ensures
            match segments {
                Ok(done) => {
                    let after = old(self)@.body + contents(*chunk);
                    let first = old(self)@.full_segments();
                    &&& after.len() <= old(self)@.max_size
                    &&& final(self).wf()
                    &&& final(self)@ == (SegmenterView { body: after, ..old(self)@ })
                    &&& done.len() == final(self)@.full_segments() - first
                    &&& forall|k: int|
                        0 <= k < done.len() ==> contents(#[trigger] done[k]) == after.subrange(
                            (first + k) * old(self)@.segment_size,
                            (first + k + 1) * old(self)@.segment_size,
                        )
                },
                Err(e) => {
                    &&& old(self)@.body.len() + contents(*chunk).len() > old(self)@.max_size
                    &&& e == S3Code::EntityTooLarge
                },
            },
    {
        let chunk_len: usize = chunk.len();
        let size: u64 = match self.size.checked_add(chunk_len as u64) {
            Some(size) => size,
            None => {
                return Err(S3Code::EntityTooLarge);
            },
        };
        if size > self.max_size {
            return Err(S3Code::EntityTooLarge);
        }
        let bytes: &[u8] = bytes_slice(chunk);
        md5_update(&mut self.md5, bytes);
        self.size = size;
        let ghost before = self.body@;
        let ghost after = before + bytes@;
        let ghost first = self.done@;
        let p: usize = self.segment_size;
        let mut done: Vec<Bytes> = Vec::new();
        let mut offset: usize = 0;
        proof {
            assert(before + bytes@.take(0) =~= before);
        }
        while offset < chunk_len
            invariant
                chunk_len == bytes@.len(),
                offset <= chunk_len,
                p == self.segment_size,
                p > 0,
                buffer_fits(p as int),
                after == before + bytes@,
                self.max_size == old(self).max_size,
                self.body == old(self).body,
                self.size == after.len(),
                md5_fed(self.md5) == after,
                first + done.len() == self.done@,
                self.done@ * p <= before.len() + offset,
                before.len() + offset < (self.done@ + 1) * p,
                contents_mut(self.pending) == (before + bytes@.take(offset as int)).skip(
                    self.done@ * p,
                ),
                0 <= first,
                forall|k: int|
                    0 <= k < done.len() ==> contents(#[trigger] done[k]) == after.subrange(
                        (first + k) * p,
                        (first + k + 1) * p,
                    ),
            decreases chunk_len - offset,
        {
            let filled: usize = self.pending.len();
            proof {
                assert((self.done@ + 1) * p == self.done@ * p + p) by (nonlinear_arith);
                assert((self.done@ + 2) * p == self.done@ * p + p + p) by (nonlinear_arith);
            }
            let room: usize = p - filled;
            let left: usize = chunk_len - offset;
            let take: usize = if room <= left { room } else { left };
            let ghost held = before + bytes@.take(offset as int);
            let ghost next = before + bytes@.take(offset + take);
            let part: &[u8] = vstd::slice::slice_subrange(bytes, offset, offset + take);
            self.pending.extend_from_slice(part);
            proof {
                assert(next =~= held + part@);
                assert(next.skip(self.done@ * p) =~= held.skip(self.done@ * p) + part@);
            }
            offset = offset + take;
            if self.pending.len() == p {
                proof {
                    assert(next.skip(self.done@ * p) =~= after.subrange(
                        self.done@ * p,
                        (self.done@ + 1) * p,
                    ));
                    assert(next.skip((self.done@ + 1) * p) =~= Seq::<u8>::empty());
                    self.done@ = self.done@ + 1;
                }
                let segment: Bytes = self.pending.split().freeze();
                done.push(segment);
            }
        }
        proof {
            assert(bytes@.take(offset as int) =~= bytes@);
            self.body@ = after;
            assert((self.done@ + 1) * p == self.done@ * p + p) by (nonlinear_arith);
            vstd::arithmetic::div_mod::lemma_fundamental_div_mod_converse(
                after.len() as int,
                p as int,
                self.done@,
                after.len() - self.done@ * p,
            );
        }
        Ok(done)
    }

    /// Ends the body.
    pub fn finish(self) -> (end: SegmentedBody)
        requires
            self.wf(),
        ensures
            end.size == self@.body.len(),
            end.digest@ == md5_of(self@.body),
            end.last is Some <==> self@.body.len() as int % self@.segment_size != 0,
            end.last matches Some(segment) ==> contents(segment) == self@.body.skip(
                self@.full_segments() * self@.segment_size,
            ),
    {
        proof {
            vstd::arithmetic::div_mod::lemma_fundamental_div_mod(
                self.body@.len() as int,
                self.segment_size as int,
            );
            assert(self.segment_size * self.done@ == self.done@ * self.segment_size)
                by (nonlinear_arith);
        }
        let last: Option<Bytes> = if self.pending.is_empty() {
            None
        } else {
            Some(self.pending.freeze())
        };
        SegmentedBody { last, size: self.size, digest: md5_finalize(self.md5) }
    }
}

/// The MD5 hash of a body that was not sent.
pub fn empty_digest() -> (digest: [u8; 16])
    ensures
        digest@ == md5_of(Seq::empty()),
{
    md5_finalize(md5_new())
}

/// The bytes in the standard Base64 alphabet with padding.
pub uninterp spec fn base64_of(bytes: Seq<u8>) -> Seq<char>;

/// `Engine::encode` of the standard Base64 engine depends on the bytes alone.
#[verifier::external_body]
pub(crate) fn base64_encode(bytes: &[u8]) -> (text: String)
    ensures
        text@ == base64_of(bytes@),
{
    base64::engine::general_purpose::STANDARD.encode(bytes)
}

/// Compares the digest that a client expects with that of the body, both in
/// Base64.
pub fn judge_md5(expected: Option<&str>, encoded: &str) -> (judged: Result<(), S3Code>)
    ensures
        match judged {
            Ok(_) => expected matches Some(value) ==> value@ == encoded@,
            Err(e) => expected matches Some(value) && value@ != encoded@ && e
                == S3Code::BadDigest,
        },
{
    match expected {
        None => Ok(()),
        Some(value) => {
            if same_text(value, encoded) {
                Ok(())
            } else {
                Err(S3Code::BadDigest)
            }
        },
    }
}

/// Checks the digest that a client expects of its body.
pub fn verify_md5(expected: Option<&str>, digest: &[u8]) -> (verified: Result<(), S3Code>)
    ensures
        match verified {
            Ok(_) => expected matches Some(value) ==> value@ == base64_of(digest@),
            Err(e) => expected matches Some(value) && value@ != base64_of(digest@) && e
                == S3Code::BadDigest,
        },
{
    let encoded: String = base64_encode(digest);
    judge_md5(expected, encoded.as_str())
}

/// The tag of a body, in hexadecimal, once the digest that its client expects
/// was checked.
pub fn body_etag(expected: Option<&str>, digest: &[u8]) -> (etag: Result<String, S3Code>)
    ensures
        match etag {
            Ok(text) => {
                &&& text@ == hex_text(digest@)
                &&& expected matches Some(value) ==> value@ == base64_of(digest@)
            },
            Err(e) => expected matches Some(value) && value@ != base64_of(digest@) && e
                == S3Code::BadDigest,
        },
{
    match verify_md5(expected, digest) {
        Ok(_) => Ok(hex(digest)),
        Err(error) => Err(error),
    }
}

/// Plaintext bytes of a segment of at most `max_frames` frames; the error is
/// that frames are smaller than their tag, or that segments hold nothing.
pub fn segment_capacity(max_frames: u32, frame_size: usize) -> (bytes: Result<usize, S3Code>)
    requires
        max_frames * (frame_size - TAG_SIZE) <= usize::MAX,
    ensures
        match bytes {
            Ok(n) => n > 0 && n == max_frames * (frame_size - TAG_SIZE),
            Err(e) => {
                &&& max_frames == 0 || frame_size <= TAG_SIZE
                &&& e == S3Code::InternalError
            },
        },
{
    if max_frames == 0 || frame_size <= TAG_SIZE {
        return Err(S3Code::InternalError);
    }
    let payload: usize = frame_size - TAG_SIZE;
    proof {
        assert(max_frames * payload > 0) by (nonlinear_arith)
            requires
                max_frames > 0,
                payload > 0,
        ;
    }
    Ok(max_frames as usize * payload)
}

/// Whether the text is pairs of hexadecimal digits.
pub open spec fn is_hex(text: Seq<char>) -> bool {
    &&& text.len() % 2 == 0
    &&& forall|i: int| 0 <= i < text.len() ==> digit_value(#[trigger] text[i]) is Some
}

/// The bytes that pairs of hexadecimal digits write.
pub open spec fn hex_bytes(text: Seq<char>) -> Seq<u8> {
    Seq::new(
        (text.len() / 2) as nat,
        |i: int| (digit_value(text[2 * i])->0 * 16 + digit_value(text[2 * i + 1])->0) as u8,
    )
}

fn hex_value(c: char) -> (value: Option<u8>)
    ensures
        match value {
            Some(v) => digit_value(c) == Some(v as int) && v < 16,
            None => digit_value(c) is None,
        },
{
    if '0' <= c && c <= '9' {
        Some(c as u8 - 48)
    } else if 'a' <= c && c <= 'f' {
        Some(c as u8 - 97 + 10)
    } else if 'A' <= c && c <= 'F' {
        Some(c as u8 - 65 + 10)
    } else {
        None
    }
}

/// Reads bytes in hexadecimal.
pub fn unhex(text: &str) -> (bytes: Option<Vec<u8>>)
    ensures
        match bytes {
            Some(b) => is_hex(text@) && b@ == hex_bytes(text@),
            None => !is_hex(text@),
        },
{
    let chars: Vec<char> = chars_of(text);
    if chars.len() % 2 != 0 {
        return None;
    }
    let mut bytes: Vec<u8> = Vec::new();
    let mut i: usize = 0;
    while i < chars.len()
        invariant
            chars@ == text@,
            chars.len() % 2 == 0,
            i % 2 == 0,
            i <= chars.len(),
            bytes.len() == i / 2,
            forall|k: int| 0 <= k < i ==> digit_value(#[trigger] text@[k]) is Some,
            forall|k: int|
                0 <= k < bytes.len() ==> #[trigger] bytes@[k] == hex_bytes(text@)[k],
        decreases chars.len() - i,
    {
        let high: u8 = match hex_value(chars[i]) {
            Some(value) => value,
            None => {
                return None;
            },
        };
        let low: u8 = match hex_value(chars[i + 1]) {
            Some(value) => value,
            None => {
                assert(digit_value(text@[i + 1]) is None);
                return None;
            },
        };
        bytes.push(high * 16 + low);
        i += 2;
    }
    assert(bytes@ =~= hex_bytes(text@));
    Some(bytes)
}

/// Bytes survive being written in hexadecimal and read back.
pub proof fn law_hex_round_trips(bytes: Seq<u8>)
    ensures
        is_hex(hex_text(bytes)),
        hex_bytes(hex_text(bytes)) == bytes,
        hex_text(bytes).len() == 2 * bytes.len(),
    decreases bytes.len(),
{
    if bytes.len() == 0 {
        assert(hex_bytes(hex_text(bytes)) =~= bytes);
    } else {
        let shorter = bytes.drop_last();
        law_hex_round_trips(shorter);
        let text = hex_text(bytes);
        let head = hex_text(shorter);
        let n = shorter.len() as int;
        assert forall|i: int| 0 <= i < text.len() implies digit_value(#[trigger] text[i]) is Some by {
            if i < head.len() {
                assert(text[i] == head[i]);
            }
        }
        assert forall|i: int| 0 <= i < bytes.len() implies #[trigger] hex_bytes(text)[i]
            == bytes[i] by {
            if i < n {
                assert(text[2 * i] == head[2 * i]);
                assert(text[2 * i + 1] == head[2 * i + 1]);
                assert(hex_bytes(head)[i] == shorter[i]);
            } else {
                assert(text[2 * i] == crate::http::hex_digit(bytes.last() as int / 16));
                assert(text[2 * i + 1] == crate::http::hex_digit(bytes.last() as int % 16));
            }
        }
        assert(hex_bytes(text) =~= bytes);
    }
}

/// Whether part `k` is the first stored one with the number.
pub open spec fn is_stored_part(stored: Seq<PartRecord>, number: i32, k: int) -> bool {
    &&& 0 <= k < stored.len()
    &&& stored[k].number == number
    &&& forall|j: int| 0 <= j < k ==> (#[trigger] stored[j]).number != number
}

/// The number that a requested part has to exceed.
pub open spec fn previous_number(requested: Seq<RequestedPart>, i: int) -> int {
    if i <= 0 {
        0
    } else {
        match requested[i - 1].number {
            Some(n) => n as int,
            None => 0,
        }
    }
}

/// Whether stored part `k` is what requested part `i` names.
pub open spec fn names_part(
    requested: Seq<RequestedPart>,
    stored: Seq<PartRecord>,
    i: int,
    k: int,
) -> bool {
    &&& requested[i].number matches Some(n) && n > previous_number(requested, i)
        && is_stored_part(stored, n, k)
    &&& requested[i].etag matches Some(tag) && tag@ == stored[k].etag@
}

/// What is wrong with requested part `i`.
pub open spec fn part_error(
    requested: Seq<RequestedPart>,
    stored: Seq<PartRecord>,
    i: int,
) -> Option<S3Code> {
    match requested[i].number {
        None => Some(S3Code::InvalidPart),
        Some(n) => if n <= previous_number(requested, i) {
            Some(S3Code::InvalidPartOrder)
        } else if exists|k: int| names_part(requested, stored, i, k) {
            None
        } else {
            Some(S3Code::InvalidPart)
        },
    }
}

/// Whether requested part `i` is the first with an error.
pub open spec fn is_first_bad_part(
    requested: Seq<RequestedPart>,
    stored: Seq<PartRecord>,
    i: int,
) -> bool {
    &&& 0 <= i < requested.len()
    &&& part_error(requested, stored, i) is Some
    &&& forall|j: int| 0 <= j < i ==> #[trigger] part_error(requested, stored, j) is None
}

/// Whether the selected indices are the stored parts that the request names, in
/// its order.
pub open spec fn is_selection(
    requested: Seq<RequestedPart>,
    stored: Seq<PartRecord>,
    selected: Seq<usize>,
) -> bool {
    &&& selected.len() == requested.len()
    &&& forall|i: int|
        0 <= i < selected.len() ==> names_part(
            requested,
            stored,
            i,
            #[trigger] selected[i] as int,
        )
}

/// Bytes of the first `n` selected parts.
pub open spec fn selected_size(stored: Seq<PartRecord>, selected: Seq<usize>, n: int) -> int
    decreases n,
{
    if n <= 0 {
        0
    } else {
        selected_size(stored, selected, n - 1) + stored[selected[n - 1] as int].size
    }
}

/// Whether some part before the last is too small to be followed by another.
pub open spec fn has_small_part(stored: Seq<PartRecord>, selected: Seq<usize>) -> bool {
    exists|i: int|
        0 <= i < selected.len() - 1 && stored[#[trigger] selected[i] as int].size
            < MIN_MULTIPART_PART
}

/// Finds a stored part by its number.
fn find_part(stored: &Vec<PartRecord>, number: i32) -> (found: Option<usize>)
    ensures
        match found {
            Some(k) => is_stored_part(stored@, number, k as int),
            None => forall|k: int| !is_stored_part(stored@, number, k),
        },
{
    let mut k: usize = 0;
    while k < stored.len()
        invariant
            k <= stored.len(),
            forall|j: int| 0 <= j < k ==> (#[trigger] stored@[j]).number != number,
        decreases stored.len() - k,
    {
        if stored[k].number == number {
            return Some(k);
        }
        k += 1;
    }
    None
}

fn match_part(
    requested: &Vec<RequestedPart>,
    stored: &Vec<PartRecord>,
    i: usize,
    previous: i32,
) -> (matched: Result<usize, S3Code>)
    requires
        i < requested@.len(),
        previous == previous_number(requested@, i as int),
    ensures
        match matched {
            Ok(k) => names_part(requested@, stored@, i as int, k as int),
            Err(e) => part_error(requested@, stored@, i as int) == Some(e),
        },
{
    let number: i32 = match requested[i].number {
        Some(number) => number,
        None => {
            return Err(S3Code::InvalidPart);
        },
    };
    if number <= previous {
        return Err(S3Code::InvalidPartOrder);
    }
    match find_part(stored, number) {
        None => Err(S3Code::InvalidPart),
        Some(k) => {
            let same: bool = match &requested[i].etag {
                Some(tag) => same_text(tag.as_str(), stored[k].etag.as_str()),
                None => false,
            };
            if same {
                Ok(k)
            } else {
                proof {
                    assert forall|other: int| !names_part(
                        requested@,
                        stored@,
                        i as int,
                        other,
                    ) by {
                        if is_stored_part(stored@, number, other) {
                            if other < k {
                                assert(stored@[other].number != number);
                            }
                            if k < other {
                                assert(stored@[k as int].number != number);
                            }
                        }
                    }
                }
                Err(S3Code::InvalidPart)
            }
        },
    }
}

/// Selects the stored parts that complete a multipart upload: named in
/// ascending order by number and tag, all but the last large enough, and
/// together not too large.
pub fn select_parts(
    requested: &Vec<RequestedPart>,
    stored: &Vec<PartRecord>,
    max_object_size: u64,
) -> (selected: Result<Vec<usize>, S3Code>)
    ensures
        match selected {
            Ok(parts) => {
                &&& is_selection(requested@, stored@, parts@)
                &&& !has_small_part(stored@, parts@)
                &&& selected_size(stored@, parts@, parts@.len() as int) <= max_object_size
            },
            Err(e) => {
                ||| exists|i: int| #[trigger]
                    is_first_bad_part(requested@, stored@, i) && part_error(
                        requested@,
                        stored@,
                        i,
                    ) == Some(e)
                ||| exists|parts: Seq<usize>| #[trigger]
                    is_selection(requested@, stored@, parts) && if has_small_part(stored@, parts) {
                        e == S3Code::EntityTooSmall
                    } else {
                        &&& e == S3Code::EntityTooLarge
                        &&& selected_size(stored@, parts, parts.len() as int) > max_object_size
                    }
            },
        },
{
    let mut parts: Vec<usize> = Vec::new();
    let mut previous: i32 = 0;
    let mut i: usize = 0;
    while i < requested.len()
        invariant
            i <= requested.len(),
            parts.len() == i,
            previous == previous_number(requested@, i as int),
            forall|j: int|
                0 <= j < i ==> names_part(requested@, stored@, j, #[trigger] parts@[j] as int),
            forall|j: int| 0 <= j < i ==> #[trigger] part_error(requested@, stored@, j) is None,
        decreases requested.len() - i,
    {
        match match_part(requested, stored, i, previous) {
            Err(error) => {
                assert(is_first_bad_part(requested@, stored@, i as int));
                return Err(error);
            },
            Ok(k) => {
                if let Some(number) = requested[i].number {
                    previous = number;
                }
                proof {
                    assert(names_part(requested@, stored@, i as int, k as int));
                    assert(part_error(requested@, stored@, i as int) is None);
                }
                parts.push(k);
            },
        }
        i += 1;
    }
    assert(is_selection(requested@, stored@, parts@));
    let mut size: u128 = 0;
    let mut j: usize = 0;
    while j < parts.len()
        invariant
            is_selection(requested@, stored@, parts@),
            j <= parts.len(),
            size == selected_size(stored@, parts@, j as int),
            size <= j * u64::MAX,
            forall|k: int|
                0 <= k < j && k < parts@.len() - 1 ==> stored@[#[trigger] parts@[k] as int].size
                    >= MIN_MULTIPART_PART,
        decreases parts.len() - j,
    {
        let k: usize = parts[j];
        assert(names_part(requested@, stored@, j as int, parts@[j as int] as int));
        if j + 1 < parts.len() && stored[k].size < MIN_MULTIPART_PART {
            assert(has_small_part(stored@, parts@));
            return Err(S3Code::EntityTooSmall);
        }
        size = size + stored[k].size as u128;
        j += 1;
    }
    assert(!has_small_part(stored@, parts@));
    if size > max_object_size as u128 {
        return Err(S3Code::EntityTooLarge);
    }
    Ok(parts)
}

/// The hashes of the first `n` selected parts, one after the other.
pub open spec fn part_hashes(stored: Seq<PartRecord>, selected: Seq<usize>, n: int) -> Seq<u8>
    decreases n,
{
    if n <= 0 {
        Seq::empty()
    } else {
        part_hashes(stored, selected, n - 1) + hex_bytes(stored[selected[n - 1] as int].etag@)
    }
}

/// The tag of an object made of parts: the MD5 hash of their hashes, and how
/// many they are.
pub fn multipart_etag(stored: &Vec<PartRecord>, selected: &Vec<usize>) -> (etag: Result<
    String,
    S3Code,
>)
    requires
        forall|i: int| 0 <= i < selected@.len() ==> (#[trigger] selected@[i]) < stored@.len(),
    ensures
        match etag {
            Ok(tag) => {
                &&& forall|i: int|
                    0 <= i < selected@.len() ==> is_hex(
                        stored@[#[trigger] selected@[i] as int].etag@,
                    )
                &&& tag@ == hex_text(
                    md5_of(part_hashes(stored@, selected@, selected@.len() as int)),
                ) + "-"@ + decimal(selected@.len())
            },
            Err(e) => {
                &&& exists|i: int|
                    0 <= i < selected@.len() && !is_hex(
                        stored@[#[trigger] selected@[i] as int].etag@,
                    )
                &&& e == S3Code::InternalError
            },
        },
{
    let mut hasher: Md5Hasher = md5_new();
    let mut i: usize = 0;
    while i < selected.len()
        invariant
            forall|k: int| 0 <= k < selected@.len() ==> (#[trigger] selected@[k]) < stored@.len(),
            i <= selected.len(),
            md5_fed(hasher) == part_hashes(stored@, selected@, i as int),
            forall|k: int|
                0 <= k < i ==> is_hex(stored@[#[trigger] selected@[k] as int].etag@),
        decreases selected.len() - i,
    {
        assert(selected@[i as int] < stored@.len());
        let part: &PartRecord = &stored[selected[i]];
        match unhex(part.etag.as_str()) {
            None => {
                return Err(S3Code::InternalError);
            },
            Some(bytes) => {
                md5_update(&mut hasher, bytes.as_slice());
            },
        }
        i += 1;
    }
    let digest: [u8; 16] = md5_finalize(hasher);
    let mut etag: String = hex(digest.as_slice());
    push_text(&mut etag, "-");
    push_decimal(&mut etag, selected.len() as u64);
    Ok(etag)
}

/// The parts that a completion names; it has to name some list.
pub fn requested_parts(parts: Option<Vec<RequestedPart>>) -> (requested: Result<
    Vec<RequestedPart>,
    S3Code,
>)
    ensures
        match requested {
            Ok(list) => parts == Some(list),
            Err(e) => parts is None && e == S3Code::InvalidPart,
        },
{
    match parts {
        Some(list) => Ok(list),
        None => Err(S3Code::InvalidPart),
    }
}

/// The segments of the first `n` selected parts, in order.
pub open spec fn selected_segments(
    stored: Seq<PartRecord>,
    selected: Seq<usize>,
    n: int,
) -> Seq<SegmentRecord>
    decreases n,
{
    if n <= 0 {
        Seq::empty()
    } else {
        selected_segments(stored, selected, n - 1) + stored[selected[n - 1] as int].segments@
    }
}

/// The object that a multipart upload becomes.
#[derive(Debug)]
pub struct CompletedUpload {
    pub segments: Vec<SegmentRecord>,
    pub size: u64,
    pub etag: String,
}

/// Joins the segments of the selected parts.
fn join_segments(stored: &Vec<PartRecord>, selected: &Vec<usize>) -> (segments: Vec<SegmentRecord>)
    requires
        forall|i: int| 0 <= i < selected@.len() ==> (#[trigger] selected@[i]) < stored@.len(),
    ensures
        segments@ == selected_segments(stored@, selected@, selected@.len() as int),
{
    let mut segments: Vec<SegmentRecord> = Vec::new();
    let mut i: usize = 0;
    while i < selected.len()
        invariant
            forall|k: int| 0 <= k < selected@.len() ==> (#[trigger] selected@[k]) < stored@.len(),
            i <= selected.len(),
            segments@ == selected_segments(stored@, selected@, i as int),
        decreases selected.len() - i,
    {
        assert(selected@[i as int] < stored@.len());
        let part: &PartRecord = &stored[selected[i]];
        let ghost before = segments@;
        let mut j: usize = 0;
        while j < part.segments.len()
            invariant
                j <= part.segments.len(),
                segments@ == before + part.segments@.take(j as int),
            decreases part.segments.len() - j,
        {
            segments.push(part.segments[j].clone());
            proof {
                assert(part.segments@.take(j + 1) =~= part.segments@.take(j as int).push(
                    part.segments@[j as int],
                ));
                assert(segments@ =~= before + part.segments@.take(j + 1));
            }
            j += 1;
        }
        proof {
            assert(part.segments@.take(j as int) =~= part.segments@);
        }
        i += 1;
    }
    segments
}

/// Bytes of the selected parts.
fn sum_sizes(stored: &Vec<PartRecord>, selected: &Vec<usize>) -> (size: u64)
    requires
        forall|i: int| 0 <= i < selected@.len() ==> (#[trigger] selected@[i]) < stored@.len(),
        selected_size(stored@, selected@, selected@.len() as int) <= u64::MAX,
    ensures
        size == selected_size(stored@, selected@, selected@.len() as int),
{
    let mut size: u64 = 0;
    let mut i: usize = 0;
    while i < selected.len()
        invariant
            forall|k: int| 0 <= k < selected@.len() ==> (#[trigger] selected@[k]) < stored@.len(),
            selected_size(stored@, selected@, selected@.len() as int) <= u64::MAX,
            i <= selected.len(),
            size == selected_size(stored@, selected@, i as int),
        decreases selected.len() - i,
    {
        proof {
            lemma_selected_size_grows(stored@, selected@, i + 1, selected@.len() as int);
        }
        assert(selected@[i as int] < stored@.len());
        size = size + stored[selected[i]].size;
        i += 1;
    }
    size
}

proof fn lemma_selected_size_grows(
    stored: Seq<PartRecord>,
    selected: Seq<usize>,
    i: int,
    n: int,
)
    requires
        0 <= i <= n,
    ensures
        selected_size(stored, selected, i) <= selected_size(stored, selected, n),
    decreases n - i,
{
    if i < n {
        lemma_selected_size_grows(stored, selected, i, n - 1);
    }
}

/// What completing a multipart upload answers: the first thing that is wrong
/// with the request, or the object that the named parts make.
pub open spec fn is_completion(
    upload: Option<(&str, &str)>,
    bucket: Seq<char>,
    key: Seq<char>,
    requested: Option<Seq<RequestedPart>>,
    stored: Seq<PartRecord>,
    max_object_size: u64,
    answer: Result<CompletedUpload, S3Code>,
) -> bool {
    if !(upload matches Some((b, k)) && b@ == bucket && k@ == key) {
        answer == Err::<CompletedUpload, S3Code>(S3Code::NoSuchUpload)
    } else {
        match requested {
            None => answer == Err::<CompletedUpload, S3Code>(S3Code::InvalidPart),
            Some(parts) => match answer {
                Ok(object) => exists|selected: Seq<usize>| #[trigger]
                    is_selection(parts, stored, selected) && {
                        &&& !has_small_part(stored, selected)
                        &&& forall|i: int|
                            0 <= i < selected.len() ==> is_hex(
                                stored[#[trigger] selected[i] as int].etag@,
                            )
                        &&& object.size == selected_size(stored, selected, selected.len() as int)
                        &&& object.size <= max_object_size
                        &&& object.segments@ == selected_segments(
                            stored,
                            selected,
                            selected.len() as int,
                        )
                        &&& object.etag@ == hex_text(
                            md5_of(part_hashes(stored, selected, selected.len() as int)),
                        ) + "-"@ + decimal(selected.len())
                    },
                Err(e) => {
                    ||| exists|i: int| #[trigger]
                        is_first_bad_part(parts, stored, i) && part_error(parts, stored, i)
                            == Some(e)
                    ||| exists|selected: Seq<usize>| #[trigger]
                        is_selection(parts, stored, selected) && if has_small_part(
                            stored,
                            selected,
                        ) {
                            e == S3Code::EntityTooSmall
                        } else if selected_size(stored, selected, selected.len() as int)
                            > max_object_size {
                            e == S3Code::EntityTooLarge
                        } else {
                            &&& e == S3Code::InternalError
                            &&& exists|i: int|
                                0 <= i < selected.len() && !is_hex(
                                    stored[#[trigger] selected[i] as int].etag@,
                                )
                        }
                },
            },
        }
    }
}

/// Completes a multipart upload from the parts that the request names.
pub fn complete_multipart(
    upload: Option<(&str, &str)>,
    bucket: &str,
    key: &str,
    requested: Option<Vec<RequestedPart>>,
    stored: &Vec<PartRecord>,
    max_object_size: u64,
) -> (completed: Result<CompletedUpload, S3Code>)
    ensures
        is_completion(
            upload,
            bucket@,
            key@,
            match requested {
                Some(list) => Some(list@),
                None => None,
            },
            stored@,
            max_object_size,
            completed,
        ),
{
    if let Err(error) = check_upload(upload, bucket, key) {
        return Err(error);
    }
    let parts: Vec<RequestedPart> = match requested_parts(requested) {
        Ok(parts) => parts,
        Err(error) => {
            return Err(error);
        },
    };
    let selected: Vec<usize> = match select_parts(&parts, stored, max_object_size) {
        Ok(selected) => selected,
        Err(error) => {
            return Err(error);
        },
    };
    proof {
        assert forall|i: int| 0 <= i < selected@.len() implies (#[trigger] selected@[i])
            < stored@.len() by {
            assert(names_part(parts@, stored@, i, selected@[i] as int));
        }
    }
    match multipart_etag(stored, &selected) {
        Err(error) => {
            assert(is_selection(parts@, stored@, selected@));
            Err(error)
        },
        Ok(etag) => {
            let size: u64 = sum_sizes(stored, &selected);
            let segments: Vec<SegmentRecord> = join_segments(stored, &selected);
            assert(is_selection(parts@, stored@, selected@));
            Ok(CompletedUpload { segments, size, etag })
        },
    }
}

/// Keys of a page, given how many were asked for.
pub fn page_size(max_keys: Option<i32>) -> (size: i32)
    ensures
        size == match max_keys {
            None => MAX_PAGE as int,
            Some(n) => at_least(at_most(n as int, MAX_PAGE as int), 0),
        },
{
    match max_keys {
        None => MAX_PAGE,
        Some(n) => {
            if n < 0 {
                0
            } else if n > MAX_PAGE {
                MAX_PAGE
            } else {
                n
            }
        },
    }
}

/// The key after which a page starts: where the last one ended, or where the
/// client says, or at the beginning.
pub fn page_start(continuation: Option<String>, start_after: Option<String>) -> (after: String)
    ensures
        after@ == match continuation {
            Some(token) => token@,
            None => match start_after {
                Some(key) => key@,
                None => Seq::empty(),
            },
        },
{
    match continuation {
        Some(token) => token,
        None => match start_after {
            Some(key) => key,
            None => String::new(),
        },
    }
}

/// The common prefix that a key falls under: up to the first delimiter after
/// the prefix of the listing.
pub open spec fn common_prefix(key: Seq<char>, prefix_len: int, delimiter: Option<Seq<char>>) -> Option<
    Seq<char>,
> {
    match delimiter {
        None => None,
        Some(mark) => match find_from(key.skip(prefix_len), mark, 0) {
            Some(at) => Some(key.take(prefix_len + at + mark.len())),
            None => None,
        },
    }
}

fn key_group(key: &str, prefix_len: usize, delimiter: Option<&str>) -> (group: Option<String>)
    requires
        prefix_len <= key@.len(),
    ensures
        match group {
            Some(g) => common_prefix(
                key@,
                prefix_len as int,
                match delimiter {
                    Some(mark) => Some(mark@),
                    None => None,
                },
            ) == Some(g@),
            None => common_prefix(
                key@,
                prefix_len as int,
                match delimiter {
                    Some(mark) => Some(mark@),
                    None => None,
                },
            ) is None,
        },
{
    let mark: &str = match delimiter {
        Some(mark) => mark,
        None => {
            return None;
        },
    };
    let chars: Vec<char> = chars_of(key);
    let rest: &[char] = vstd::slice::slice_subrange(chars.as_slice(), prefix_len, chars.len());
    proof {
        assert(rest@ =~= key@.skip(prefix_len as int));
    }
    match find_text(rest, mark) {
        None => {
            proof {
                lemma_find_none(rest@, mark@, 0);
            }
            None
        },
        Some(at) => {
            proof {
                lemma_find_from(rest@, mark@, 0, at as int);
            }
            let mark_len: usize = chars_of(mark).len();
            let end: usize = prefix_len + at + mark_len;
            let group: String = text_between(&chars, 0, end);
            proof {
                assert(group@ =~= key@.take(end as int));
            }
            Some(group)
        },
    }
}

/// One page of a listing: the rows listed by themselves, the common prefixes
/// without repetition, and where the next page starts if there is one.
pub struct ListPage {
    pub contents: Vec<usize>,
    pub common_prefixes: Vec<String>,
    pub next: Option<String>,
}

impl ListPage {
    pub fn is_truncated(&self) -> (truncated: bool)
        ensures
            truncated == self.next is Some,
    {
        self.next.is_some()
    }

    pub fn key_count(&self) -> (count: usize)
        requires
            self.contents@.len() + self.common_prefixes@.len() <= usize::MAX,
        ensures
            count == self.contents@.len() + self.common_prefixes@.len(),
    {
        self.contents.len() + self.common_prefixes.len()
    }
}

/// The group of row `i` of a listing.
pub open spec fn row_group(
    rows: Seq<ObjectSummary>,
    prefix_len: int,
    delimiter: Option<Seq<char>>,
    i: int,
) -> Option<Seq<char>> {
    common_prefix(rows[i].key@, prefix_len, delimiter)
}

/// The rows among the first `n` that fall under no common prefix, in order.
pub open spec fn plain_rows(
    rows: Seq<ObjectSummary>,
    prefix_len: int,
    delimiter: Option<Seq<char>>,
    n: int,
) -> Seq<int>
    decreases n,
{
    if n <= 0 {
        Seq::empty()
    } else {
        let before = plain_rows(rows, prefix_len, delimiter, n - 1);
        if row_group(rows, prefix_len, delimiter, n - 1) is None {
            before.push(n - 1)
        } else {
            before
        }
    }
}

/// Whether one of the first `n` rows has the group.
pub open spec fn some_row_has(
    rows: Seq<ObjectSummary>,
    prefix_len: int,
    delimiter: Option<Seq<char>>,
    n: int,
    group: Seq<char>,
) -> bool {
    exists|i: int|
        0 <= i < n && #[trigger] row_group(rows, prefix_len, delimiter, i) == Some(group)
}

/// Whether the text is one of the prefixes.
pub open spec fn is_among(prefixes: Seq<String>, group: Seq<char>) -> bool {
    exists|j: int| 0 <= j < prefixes.len() && (#[trigger] prefixes[j])@ == group
}

/// Whether the prefixes are exactly those of the first `n` rows, each once.
pub open spec fn are_groups(
    rows: Seq<ObjectSummary>,
    prefix_len: int,
    delimiter: Option<Seq<char>>,
    n: int,
    prefixes: Seq<String>,
) -> bool {
    &&& forall|i: int, j: int|
        #![trigger prefixes[i], prefixes[j]]
        0 <= i < j < prefixes.len() ==> prefixes[i]@ != prefixes[j]@
    &&& forall|i: int|
        0 <= i < n ==> match #[trigger] row_group(rows, prefix_len, delimiter, i) {
            Some(group) => is_among(prefixes, group),
            None => true,
        }
    &&& forall|j: int|
        0 <= j < prefixes.len() ==> some_row_has(
            rows,
            prefix_len,
            delimiter,
            n,
            (#[trigger] prefixes[j])@,
        )
}

fn holds(prefixes: &Vec<String>, group: &str) -> (held: bool)
    ensures
        held == is_among(prefixes@, group@),
{
    let mut j: usize = 0;
    while j < prefixes.len()
        invariant
            j <= prefixes.len(),
            forall|k: int| 0 <= k < j ==> (#[trigger] prefixes@[k])@ != group@,
        decreases prefixes.len() - j,
    {
        if same_text(prefixes[j].as_str(), group) {
            return true;
        }
        j += 1;
    }
    false
}

/// Builds a page of at most `max` keys from the rows after its start, of which
/// one more than `max` may be given.
pub fn list_page(
    rows: &Vec<ObjectSummary>,
    prefix_len: usize,
    delimiter: Option<&str>,
    max: i32,
) -> (page: ListPage)
    requires
        0 <= max,
        max == 0 ==> rows@.len() == 0,
        forall|i: int| 0 <= i < rows@.len() ==> prefix_len <= (#[trigger] rows@[i]).key@.len(),
    ensures
        ({
            let n = at_most(rows@.len() as int, max as int);
            let mark = match delimiter {
                Some(text) => Some(text@),
                None => None,
            };
            &&& page.contents@.map_values(|i: usize| i as int) == plain_rows(
                rows@,
                prefix_len as int,
                mark,
                n,
            )
            &&& are_groups(rows@, prefix_len as int, mark, n, page.common_prefixes@)
            &&& page.contents@.len() + page.common_prefixes@.len() <= n
            &&& match page.next {
                Some(next) => rows@.len() > max && next@ == rows@[max - 1].key@,
                None => rows@.len() <= max,
            }
        }),
{
    let ghost mark = match delimiter {
        Some(text) => Some(text@),
        None => None,
    };
    let truncated: bool = rows.len() > max as usize;
    let n: usize = if truncated { max as usize } else { rows.len() };
    let mut contents: Vec<usize> = Vec::new();
    let mut common: Vec<String> = Vec::new();
    let mut i: usize = 0;
    proof {
        assert(contents@.map_values(|i: usize| i as int) =~= plain_rows(
            rows@,
            prefix_len as int,
            mark,
            0,
        ));
    }
    while i < n
        invariant
            n <= rows.len(),
            i <= n,
            mark == (match delimiter {
                Some(text) => Some(text@),
                None => None,
            }),
            forall|k: int| 0 <= k < rows@.len() ==> prefix_len <= (#[trigger] rows@[k]).key@.len(),
            contents@.map_values(|i: usize| i as int) == plain_rows(
                rows@,
                prefix_len as int,
                mark,
                i as int,
            ),
            are_groups(rows@, prefix_len as int, mark, i as int, common@),
            contents@.len() + common@.len() <= i,
        decreases n - i,
    {
        let ghost kept = contents@;
        let ghost found = common@;
        assert(prefix_len <= rows@[i as int].key@.len());
        match key_group(rows[i].key.as_str(), prefix_len, delimiter) {
            Some(group) => {
                let seen: bool = holds(&common, group.as_str());
                if !seen {
                    common.push(group);
                }
                proof {
                    lemma_group_added(rows@, prefix_len as int, mark, i as int, found, common@, seen);
                }
            },
            None => {
                contents.push(i);
                proof {
                    assert(contents@.map_values(|i: usize| i as int) =~= kept.map_values(
                        |i: usize| i as int,
                    ).push(i as int));
                    lemma_no_group_added(rows@, prefix_len as int, mark, i as int, common@);
                }
            },
        }
        i += 1;
    }
    let next: Option<String> = if truncated {
        Some(rows[max as usize - 1].key.clone())
    } else {
        None
    };
    ListPage { contents, common_prefixes: common, next }
}

proof fn lemma_no_group_added(
    rows: Seq<ObjectSummary>,
    prefix_len: int,
    mark: Option<Seq<char>>,
    n: int,
    prefixes: Seq<String>,
)
    requires
        0 <= n,
        are_groups(rows, prefix_len, mark, n, prefixes),
        row_group(rows, prefix_len, mark, n) is None,
    ensures
        are_groups(rows, prefix_len, mark, n + 1, prefixes),
{
    assert forall|j: int| 0 <= j < prefixes.len() implies some_row_has(
        rows,
        prefix_len,
        mark,
        n + 1,
        (#[trigger] prefixes[j])@,
    ) by {
        lemma_row_still_has(rows, prefix_len, mark, n, prefixes[j]@);
    }
}

proof fn lemma_row_still_has(
    rows: Seq<ObjectSummary>,
    prefix_len: int,
    mark: Option<Seq<char>>,
    n: int,
    group: Seq<char>,
)
    requires
        some_row_has(rows, prefix_len, mark, n, group),
    ensures
        some_row_has(rows, prefix_len, mark, n + 1, group),
{
    let i = choose|i: int|
        0 <= i < n && #[trigger] row_group(rows, prefix_len, mark, i) == Some(group);
    assert(row_group(rows, prefix_len, mark, i) == Some(group));
}

proof fn lemma_still_among(before: Seq<String>, last: String, group: Seq<char>)
    requires
        is_among(before, group) || last@ == group,
    ensures
        is_among(before.push(last), group),
{
    let after = before.push(last);
    if is_among(before, group) {
        let j = choose|j: int| 0 <= j < before.len() && (#[trigger] before[j])@ == group;
        assert(after[j]@ == group);
    } else {
        assert(after[before.len() as int]@ == group);
    }
}

proof fn lemma_group_added(
    rows: Seq<ObjectSummary>,
    prefix_len: int,
    mark: Option<Seq<char>>,
    n: int,
    before: Seq<String>,
    after: Seq<String>,
    seen: bool,
)
    requires
        0 <= n,
        are_groups(rows, prefix_len, mark, n, before),
        row_group(rows, prefix_len, mark, n) is Some,
        seen == is_among(before, row_group(rows, prefix_len, mark, n)->0),
        seen ==> after == before,
        !seen ==> after.len() == before.len() + 1 && after == before.push(after.last())
            && after.last()@ == row_group(rows, prefix_len, mark, n)->0,
    ensures
        are_groups(rows, prefix_len, mark, n + 1, after),
{
    let group = row_group(rows, prefix_len, mark, n)->0;
    assert forall|i: int, j: int|
        #![trigger after[i], after[j]]
        0 <= i < j < after.len() implies after[i]@ != after[j]@ by {
        assert(after[i] == before[i]);
        if j < before.len() {
            assert(after[j] == before[j]);
        }
    }
    assert forall|i: int| 0 <= i < n + 1 implies match #[trigger] row_group(
        rows,
        prefix_len,
        mark,
        i,
    ) {
        Some(g) => is_among(after, g),
        None => true,
    } by {
        if row_group(rows, prefix_len, mark, i) is Some && !seen {
            lemma_still_among(before, after.last(), row_group(rows, prefix_len, mark, i)->0);
        }
    }
    assert forall|j: int| 0 <= j < after.len() implies some_row_has(
        rows,
        prefix_len,
        mark,
        n + 1,
        (#[trigger] after[j])@,
    ) by {
        if j < before.len() {
            assert(after[j] == before[j]);
            lemma_row_still_has(rows, prefix_len, mark, n, before[j]@);
        } else {
            assert(row_group(rows, prefix_len, mark, n) == Some(after[j]@));
        }
    }
}

/// A part of a segment to read.
#[derive(Clone, Copy, Debug, PartialEq, Eq, Structural)]
pub struct SegmentRange {
    pub index: usize,
    pub start: u64,
    pub end: u64,
}

/// Bytes of the first `n` segments.
pub open spec fn size_before(sizes: Seq<u64>, n: int) -> int
    decreases n,
{
    if n <= 0 {
        0
    } else {
        size_before(sizes, n - 1) + sizes[n - 1]
    }
}

/// The part of segment `k` in the bytes from `start` up to `end`.
pub open spec fn segment_part(sizes: Seq<u64>, start: int, end: int, k: int) -> SegmentRange {
    let base = size_before(sizes, k);
    SegmentRange {
        index: k as usize,
        start: (at_least(start, base) - base) as u64,
        end: (at_most(end, size_before(sizes, k + 1)) - base) as u64,
    }
}

/// Whether some of the bytes lie in segment `k`.
pub open spec fn segment_touched(sizes: Seq<u64>, start: int, end: int, k: int) -> bool {
    at_least(start, size_before(sizes, k)) < at_most(end, size_before(sizes, k + 1))
}

/// The parts of the first `n` segments in the bytes from `start` up to `end`.
pub open spec fn segment_parts(sizes: Seq<u64>, start: int, end: int, n: int) -> Seq<SegmentRange>
    decreases n,
{
    if n <= 0 {
        Seq::empty()
    } else if segment_touched(sizes, start, end, n - 1) {
        segment_parts(sizes, start, end, n - 1).push(segment_part(sizes, start, end, n - 1))
    } else {
        segment_parts(sizes, start, end, n - 1)
    }
}

proof fn lemma_size_before(sizes: Seq<u64>, i: int, j: int)
    requires
        0 <= i <= j,
    ensures
        0 <= size_before(sizes, i) <= size_before(sizes, j),
    decreases j,
{
    if i < j {
        lemma_size_before(sizes, i, j - 1);
    } else if i > 0 {
        lemma_size_before(sizes, i - 1, i - 1);
    }
}

proof fn lemma_no_later_parts(sizes: Seq<u64>, start: int, end: int, k: int, n: int)
    requires
        0 <= k <= n,
        size_before(sizes, k) >= end,
    ensures
        segment_parts(sizes, start, end, n) == segment_parts(sizes, start, end, k),
    decreases n,
{
    if k < n {
        lemma_no_later_parts(sizes, start, end, k, n - 1);
        lemma_size_before(sizes, k, n - 1);
    }
}

/// The parts of the segments of an object that hold the bytes of a range.
pub fn segment_ranges(sizes: &Vec<u64>, range: Range<u64>) -> (parts: Vec<SegmentRange>)
    requires
        size_before(sizes@, sizes@.len() as int) <= u64::MAX,
    ensures
        parts@ == segment_parts(
            sizes@,
            range.start as int,
            range.end as int,
            sizes@.len() as int,
        ),
{
    let mut parts: Vec<SegmentRange> = Vec::new();
    let mut logical: u64 = 0;
    let mut k: usize = 0;
    while k < sizes.len()
        invariant_except_break
            logical == size_before(sizes@, k as int),
            parts@ == segment_parts(sizes@, range.start as int, range.end as int, k as int),
        invariant
            k <= sizes.len(),
            size_before(sizes@, sizes@.len() as int) <= u64::MAX,
        ensures
            parts@ == segment_parts(
                sizes@,
                range.start as int,
                range.end as int,
                sizes@.len() as int,
            ),
        decreases sizes.len() - k,
    {
        proof {
            lemma_size_before(sizes@, k + 1, sizes@.len() as int);
            lemma_size_before(sizes@, 0, k as int);
        }
        let end: u64 = logical + sizes[k];
        assert(end == size_before(sizes@, k + 1));
        let start: u64 = if range.start >= logical { range.start } else { logical };
        let stop: u64 = if range.end <= end { range.end } else { end };
        if start < stop {
            parts.push(
                SegmentRange { index: k, start: start - logical, end: stop - logical },
            );
        }
        logical = end;
        k += 1;
        if logical >= range.end {
            proof {
                lemma_no_later_parts(
                    sizes@,
                    range.start as int,
                    range.end as int,
                    k as int,
                    sizes@.len() as int,
                );
            }
            break;
        }
    }
    parts
}

/// What the parts of some bodies hold.
pub open spec fn parts_of(bodies: Seq<Seq<u8>>, parts: Seq<SegmentRange>) -> Seq<Seq<u8>> {
    parts.map_values(
        |p: SegmentRange| bodies[p.index as int].subrange(p.start as int, p.end as int),
    )
}

proof fn lemma_parts_hold_the_range(bodies: Seq<Seq<u8>>, sizes: Seq<u64>, start: int, end: int, n: int)
    requires
        bodies.len() == sizes.len(),
        bodies.len() <= usize::MAX,
        forall|k: int| 0 <= k < bodies.len() ==> (#[trigger] bodies[k]).len() == sizes[k],
        size_before(sizes, sizes.len() as int) <= u64::MAX,
        0 <= start <= end,
        0 <= n <= bodies.len(),
    ensures
        joined(bodies.take(n)).len() == size_before(sizes, n),
        joined(parts_of(bodies, segment_parts(sizes, start, end, n))) == joined(
            bodies.take(n),
        ).subrange(
            at_most(start, size_before(sizes, n)),
            at_most(end, size_before(sizes, n)),
        ),
    decreases n,
{
    if n == 0 {
        assert(bodies.take(0) =~= Seq::<Seq<u8>>::empty());
        assert(parts_of(bodies, segment_parts(sizes, start, end, 0)) =~= Seq::<Seq<u8>>::empty());
        assert(joined(parts_of(bodies, segment_parts(sizes, start, end, 0))) =~= joined(
            bodies.take(0),
        ).subrange(0, 0));
    } else {
        let k = n - 1;
        lemma_parts_hold_the_range(bodies, sizes, start, end, k);
        lemma_size_before(sizes, 0, k);
        lemma_size_before(sizes, k, n);
        lemma_size_before(sizes, n, sizes.len() as int);
        let head = joined(bodies.take(k));
        let body = bodies[k];
        let base = size_before(sizes, k);
        assert(bodies.take(n).drop_last() =~= bodies.take(k));
        assert(bodies.take(n).last() == body);
        let whole = joined(bodies.take(n));
        assert(whole == head + body);
        let before = segment_parts(sizes, start, end, k);
        if segment_touched(sizes, start, end, k) {
            let part = segment_part(sizes, start, end, k);
            let piece = body.subrange(part.start as int, part.end as int);
            assert(parts_of(bodies, before.push(part)) =~= parts_of(bodies, before).push(piece));
            lemma_joined_push(parts_of(bodies, before), piece);
            assert(joined(parts_of(bodies, before)) + piece =~= whole.subrange(
                at_most(start, base + body.len()),
                at_most(end, base + body.len()),
            ));
        } else {
            assert(joined(parts_of(bodies, before)) =~= whole.subrange(
                at_most(start, base + body.len()),
                at_most(end, base + body.len()),
            ));
        }
    }
}

/// The read promise: the parts of the segments, one after the other, are exactly
/// the requested bytes of the object.
pub proof fn law_segments_read_back(
    bodies: Seq<Seq<u8>>,
    sizes: Seq<u64>,
    start: int,
    end: int,
)
    requires
        bodies.len() == sizes.len(),
        bodies.len() <= usize::MAX,
        forall|k: int| 0 <= k < bodies.len() ==> (#[trigger] bodies[k]).len() == sizes[k],
        0 <= start <= end <= size_before(sizes, sizes.len() as int) <= u64::MAX,
    ensures
        joined(bodies).len() == size_before(sizes, sizes.len() as int),
        joined(parts_of(bodies, segment_parts(sizes, start, end, sizes.len() as int))) == joined(
            bodies,
        ).subrange(start, end),
{
    lemma_parts_hold_the_range(bodies, sizes, start, end, sizes.len() as int);
    assert(bodies.take(sizes.len() as int) =~= bodies);
}

/// A range that a client asks for.
#[derive(Clone, Copy, Debug, PartialEq, Eq, Structural)]
pub enum RequestedRange {
    /// From a first byte to a last one, or to the end.
    Int { first: u64, last: Option<u64> },
    /// The last bytes.
    Suffix { length: u64 },
}

/// The bytes of an object of `size` bytes that a range asks for.
pub open spec fn range_of(range: RequestedRange, size: int) -> Option<(int, int)> {
    match range {
        RequestedRange::Int { first, last } => if first >= size {
            None
        } else {
            match last {
                Some(last) => if first > at_most(last as int, size - 1) {
                    None
                } else {
                    Some((first as int, at_most(last as int, size - 1) + 1))
                },
                None => Some((first as int, size)),
            }
        },
        RequestedRange::Suffix { length } => if length == 0 {
            None
        } else {
            Some((size - at_most(length as int, size), size))
        },
    }
}

/// Checks a range against the size of the object. Without one the whole object
/// is asked for.
pub fn check_range(range: Option<RequestedRange>, size: u64) -> (checked: Result<
    Range<u64>,
    S3Code,
>)
    ensures
        match checked {
            Ok(r) => match range {
                None => r.start == 0 && r.end == size,
                Some(asked) => range_of(asked, size as int) == Some((r.start as int, r.end as int)),
            },
            Err(e) => {
                &&& range matches Some(asked) && range_of(asked, size as int) is None
                &&& e == S3Code::InvalidRange
            },
        },
{
    match range {
        None => Ok(0..size),
        Some(RequestedRange::Int { first, last }) => {
            if first >= size {
                return Err(S3Code::InvalidRange);
            }
            match last {
                None => Ok(first..size),
                Some(last) => {
                    let end: u64 = if last <= size - 1 { last } else { size - 1 };
                    if first > end {
                        Err(S3Code::InvalidRange)
                    } else {
                        Ok(first..end + 1)
                    }
                },
            }
        },
        Some(RequestedRange::Suffix { length }) => {
            if length == 0 {
                Err(S3Code::InvalidRange)
            } else {
                let kept: u64 = if length <= size { length } else { size };
                Ok(size - kept..size)
            }
        },
    }
}

/// The Content-Range of a response that is not the whole object.
pub fn partial_range(start: u64, end: u64, size: u64) -> (value: Option<String>)
    requires
        start <= end <= size,
    ensures
        match value {
            Some(text) => {
                &&& !(start == 0 && end == size)
                &&& start < end
                &&& text@ == content_range_text(start, end, size)
            },
            None => (start == 0 && end == size) || start == end,
        },
{
    if (start == 0 && end == size) || start == end {
        None
    } else {
        Some(content_range(start, end, size))
    }
}

/// The bytes of an object that a request reads, and what its response says of
/// them.
#[derive(Debug, PartialEq, Eq)]
pub struct ObjectRead {
    pub start: u64,
    pub end: u64,
    pub content_length: u64,
    pub content_range: Option<String>,
}

/// Plans the read of an object: the bytes that the range asks for, all of them
/// without one.
pub fn plan_read(range: Option<RequestedRange>, size: u64) -> (plan: Result<ObjectRead, S3Code>)
    ensures
        match plan {
            Ok(p) => {
                &&& match range {
                    None => p.start == 0 && p.end == size,
                    Some(asked) => range_of(asked, size as int) == Some(
                        (p.start as int, p.end as int),
                    ),
                }
                &&& p.start <= p.end <= size
                &&& p.content_length == p.end - p.start
                &&& if p.start == 0 && p.end == size {
                    p.content_range is None
                } else {
                    &&& p.start < p.end
                    &&& p.content_range matches Some(extent) && extent@ == content_range_text(
                        p.start,
                        p.end,
                        size,
                    )
                }
            },
            Err(e) => {
                &&& range matches Some(asked) && range_of(asked, size as int) is None
                &&& e == S3Code::InvalidRange
            },
        },
{
    match check_range(range, size) {
        Err(error) => Err(error),
        Ok(bytes) => Ok(
            ObjectRead {
                start: bytes.start,
                end: bytes.end,
                content_length: bytes.end - bytes.start,
                content_range: partial_range(bytes.start, bytes.end, size),
            },
        ),
    }
}

/// Checks the number of a part.
pub fn check_part_number(number: i32) -> (checked: Result<(), S3Code>)
    ensures
        match checked {
            Ok(_) => 1 <= number <= MAX_PART_NUMBER,
            Err(e) => !(1 <= number <= MAX_PART_NUMBER) && e == S3Code::InvalidArgument,
        },
{
    if 1 <= number && number <= MAX_PART_NUMBER {
        Ok(())
    } else {
        Err(S3Code::InvalidArgument)
    }
}

/// Checks that a multipart upload is known and is one of the named object.
pub fn check_upload(upload: Option<(&str, &str)>, bucket: &str, key: &str) -> (checked: Result<
    (),
    S3Code,
>)
    ensures
        match checked {
            Ok(_) => upload matches Some((b, k)) && b@ == bucket@ && k@ == key@,
            Err(e) => {
                &&& e == S3Code::NoSuchUpload
                &&& upload matches Some((b, k)) ==> b@ != bucket@ || k@ != key@
            },
        },
{
    match upload {
        None => Err(S3Code::NoSuchUpload),
        Some((b, k)) => {
            if same_text(b, bucket) && same_text(k, key) {
                Ok(())
            } else {
                Err(S3Code::NoSuchUpload)
            }
        },
    }
}

/// Checks that a part is not empty.
pub fn check_part_size(size: u64) -> (checked: Result<(), S3Code>)
    ensures
        match checked {
            Ok(_) => size > 0,
            Err(e) => size == 0 && e == S3Code::EntityTooSmall,
        },
{
    if size == 0 {
        Err(S3Code::EntityTooSmall)
    } else {
        Ok(())
    }
}

/// The headers that are kept with an object.
#[derive(Debug, PartialEq, Eq)]
pub struct ObjectHeaders {
    pub content_type: Option<String>,
    pub content_encoding: Option<String>,
    pub cache_control: Option<String>,
    pub content_disposition: Option<String>,
    pub content_language: Option<String>,
    pub metadata: Vec<(String, String)>,
}

/// The headers of a copy: those of the request where it replaces them, and
/// those of the source otherwise.
pub fn copied_headers(directive: Option<&str>, requested: ObjectHeaders, source: ObjectHeaders) -> (
    headers: ObjectHeaders)
    ensures
        headers == (if directive matches Some(text) && text@ == "REPLACE"@ {
            requested
        } else {
            source
        }),
{
    let replace: bool = match directive {
        Some(text) => same_text(text, "REPLACE"),
        None => false,
    };
    if replace {
        requested
    } else {
        source
    }
}

/// The keys that the deletion of several objects reports: all of them, unless
/// it was asked to be quiet.
pub fn reported_keys(keys: Vec<String>, quiet: Option<bool>) -> (reported: Vec<String>)
    ensures
        reported@ == (if quiet == Some(true) {
            Seq::empty()
        } else {
            keys@
        }),
{
    match quiet {
        Some(true) => Vec::new(),
        _ => keys,
    }
}

/// The time before which an unreferenced segment may be deleted.
pub fn garbage_cutoff(now: i64) -> (before: i64)
    requires
        now >= 0,
    ensures
        before == now - GARBAGE_AGE,
{
    now - GARBAGE_AGE
}

/// The seconds of Unix time that a stored time stands for; none is negative.
pub fn timestamp(seconds: i64) -> (time: u64)
    ensures
        time == at_least(seconds as int, 0),
{
    if seconds < 0 {
        0
    } else {
        seconds as u64
    }
}

/// Whether a character is escaped in a pattern.
pub open spec fn is_wild(c: char) -> bool {
    c == '\\' || c == '%' || c == '_'
}

/// A text with a backslash before every character that a pattern gives a
/// meaning to.
pub open spec fn like_escaped(text: Seq<char>) -> Seq<char>
    decreases text.len(),
{
    if text.len() == 0 {
        Seq::empty()
    } else {
        let before = like_escaped(text.drop_last());
        if is_wild(text.last()) {
            before.push('\\').push(text.last())
        } else {
            before.push(text.last())
        }
    }
}

/// Escapes a text for a pattern, where it then stands for itself.
pub fn escape_like(text: &str) -> (escaped: String)
    ensures
        escaped@ == like_escaped(text@),
{
    let chars: Vec<char> = chars_of(text);
    let mut escaped: String = String::new();
    let mut i: usize = 0;
    proof {
        assert(text@.take(0) =~= Seq::<char>::empty());
    }
    while i < chars.len()
        invariant
            chars@ == text@,
            i <= chars.len(),
            escaped@ == like_escaped(text@.take(i as int)),
        decreases chars.len() - i,
    {
        let c: char = chars[i];
        proof {
            assert(text@.take(i + 1).drop_last() =~= text@.take(i as int));
            assert(text@.take(i + 1).last() == c);
        }
        if c == '\\' || c == '%' || c == '_' {
            escaped.push('\\');
        }
        escaped.push(c);
        i += 1;
    }
    proof {
        assert(text@.take(i as int) =~= text@);
    }
    escaped
}

/// The pattern of the keys that start with a prefix.
pub fn prefix_pattern(prefix: &str) -> (pattern: String)
    ensures
        pattern@ == like_escaped(prefix@) + "%"@,
{
    let mut pattern: String = escape_like(prefix);
    push_text(&mut pattern, "%");
    pattern
}

/// Segments are cut as soon as they are full: the full ones and less than one more
/// are the body.
pub proof fn law_segments_are_cut_when_full(view: SegmenterView)
    requires
        view.wf(),
    ensures
        view.full_segments() * view.segment_size <= view.body.len(),
        view.body.len() < (view.full_segments() + 1) * view.segment_size,
{
    let size = view.segment_size;
    let full = view.full_segments();
    let len = view.body.len() as int;
    vstd::arithmetic::div_mod::lemma_fundamental_div_mod(len, size);
    assert(full * size <= len < (full + 1) * size) by (nonlinear_arith)
        requires
            len == size * full + len % size,
            0 <= len % size < size,
    ;
}

/// Hexadecimal text is in digits and small letters only, two for a byte, the
/// higher one first.
pub proof fn law_hex_is_in_small_letters(bytes: Seq<u8>, i: int)
    requires
        0 <= i < bytes.len(),
    ensures
        hex_text(bytes).len() == 2 * bytes.len(),
        ({
            let high = hex_text(bytes)[2 * i];
            let low = hex_text(bytes)[2 * i + 1];
            &&& '0' <= high <= '9' || 'a' <= high <= 'f'
            &&& '0' <= low <= '9' || 'a' <= low <= 'f'
            &&& digit_value(high)->0 * 16 + digit_value(low)->0 == bytes[i]
        }),
    decreases bytes.len(),
{
    law_hex_round_trips(bytes);
    let shorter = bytes.drop_last();
    law_hex_round_trips(shorter);
    if i < shorter.len() {
        law_hex_is_in_small_letters(shorter, i);
        assert(hex_text(bytes)[2 * i] == hex_text(shorter)[2 * i]);
        assert(hex_text(bytes)[2 * i + 1] == hex_text(shorter)[2 * i + 1]);
    } else {
        assert(hex_text(bytes)[2 * i] == crate::http::hex_digit(bytes[i] as int / 16));
        assert(hex_text(bytes)[2 * i + 1] == crate::http::hex_digit(bytes[i] as int % 16));
    }
}

/// Text is read as hexadecimal exactly if it is digits of either case, two for
/// each byte.
pub proof fn law_hex_reads_pairs(text: Seq<char>)
    ensures
        is_hex(text) <==> {
            &&& text.len() % 2 == 0
            &&& forall|i: int|
                0 <= i < text.len() ==> {
                    ||| '0' <= #[trigger] text[i] <= '9'
                    ||| 'a' <= text[i] <= 'f'
                    ||| 'A' <= text[i] <= 'F'
                }
        },
        is_hex(text) ==> hex_bytes(text).len() * 2 == text.len(),
        is_hex(text) ==> forall|i: int|
            0 <= i < hex_bytes(text).len() ==> #[trigger] hex_bytes(text)[i] == digit_value(
                text[2 * i],
            )->0 * 16 + digit_value(text[2 * i + 1])->0,
{
    if is_hex(text) {
        assert forall|i: int| 0 <= i < hex_bytes(text).len() implies #[trigger] hex_bytes(text)[i]
            == digit_value(text[2 * i])->0 * 16 + digit_value(text[2 * i + 1])->0 by {
            assert(digit_value(text[2 * i]) is Some);
            assert(digit_value(text[2 * i + 1]) is Some);
        }
        assert forall|i: int| 0 <= i < text.len() implies {
            ||| '0' <= #[trigger] text[i] <= '9'
            ||| 'a' <= text[i] <= 'f'
            ||| 'A' <= text[i] <= 'F'
        } by {
            assert(digit_value(text[i]) is Some);
        }
    }
}

/// Whether the text stands in the key at `at`.
pub open spec fn stands_at(key: Seq<char>, mark: Seq<char>, at: int) -> bool {
    &&& 0 <= at
    &&& at + mark.len() <= key.len()
    &&& key.subrange(at, at + mark.len()) == mark
}

/// Whether `group` is the shortest start of the key that ends with the delimiter
/// at or after `prefix_len`.
pub open spec fn is_shortest_group(
    key: Seq<char>,
    prefix_len: int,
    mark: Seq<char>,
    group: Seq<char>,
) -> bool {
    let at = group.len() - mark.len();
    &&& prefix_len <= at
    &&& group.len() <= key.len()
    &&& group == key.take(group.len() as int)
    &&& stands_at(key, mark, at)
    &&& forall|k: int| prefix_len <= k < at ==> !#[trigger] stands_at(key, mark, k)
}

/// Whether the delimiter stands nowhere in the key at or after `prefix_len`.
pub open spec fn has_no_group(key: Seq<char>, prefix_len: int, mark: Seq<char>) -> bool {
    forall|k: int| prefix_len <= k ==> !#[trigger] stands_at(key, mark, k)
}

/// The grouping promise: the common prefix of a key is its shortest start that
/// ends with the delimiter behind the prefix of the listing. A key has none only
/// where the delimiter stands nowhere behind that prefix, and without a delimiter.
pub proof fn law_keys_group_at_the_first_delimiter(
    key: Seq<char>,
    prefix_len: int,
    mark: Seq<char>,
)
    requires
        0 <= prefix_len <= key.len(),
    ensures
        match common_prefix(key, prefix_len, Some(mark)) {
            Some(group) => is_shortest_group(key, prefix_len, mark, group),
            None => has_no_group(key, prefix_len, mark),
        },
        common_prefix(key, prefix_len, None) is None,
{
    let rest = key.skip(prefix_len);
    law_the_first_place_is_found(rest, mark, 0);
    assert forall|k: int| prefix_len <= k && #[trigger] stands_at(key, mark, k) implies k + mark.len()
        <= key.len() && rest.subrange(k - prefix_len, k - prefix_len + mark.len()) == mark by {
        assert(rest.subrange(k - prefix_len, k - prefix_len + mark.len()) =~= key.subrange(
            k,
            k + mark.len(),
        ));
    }
    match find_from(rest, mark, 0) {
        Some(at) => {
            let place = prefix_len + at;
            assert(key.subrange(place, place + mark.len()) =~= rest.subrange(
                at,
                at + mark.len(),
            ));
            assert(stands_at(key, mark, place));
            assert forall|k: int| prefix_len <= k < place implies !#[trigger] stands_at(
                key,
                mark,
                k,
            ) by {
                if stands_at(key, mark, k) {
                    let i = k - prefix_len;
                    assert(rest.subrange(i, i + mark.len()) == mark);
                }
            }
        },
        None => {
            assert forall|k: int| prefix_len <= k implies !#[trigger] stands_at(key, mark, k) by {
                if stands_at(key, mark, k) {
                    let i = k - prefix_len;
                    assert(rest.subrange(i, i + mark.len()) == mark);
                }
            }
        },
    }
}

/// The rows of a page that are listed by themselves are those, in order, whose
/// keys have no delimiter behind the prefix of the listing; all rows are where
/// there is no delimiter.
pub proof fn law_plain_rows_have_no_delimiter(
    rows: Seq<ObjectSummary>,
    prefix_len: int,
    delimiter: Option<Seq<char>>,
    n: int,
)
    requires
        0 <= n <= rows.len(),
        forall|i: int| 0 <= i < rows.len() ==> 0 <= prefix_len <= (#[trigger] rows[i]).key@.len(),
    ensures
        forall|a: int, b: int|
            #![trigger plain_rows(rows, prefix_len, delimiter, n)[a],
                plain_rows(rows, prefix_len, delimiter, n)[b]]
            0 <= a < b < plain_rows(rows, prefix_len, delimiter, n).len() ==> plain_rows(
                rows,
                prefix_len,
                delimiter,
                n,
            )[a] < plain_rows(rows, prefix_len, delimiter, n)[b],
        forall|i: int| #[trigger]
            plain_rows(rows, prefix_len, delimiter, n).contains(i) <==> 0 <= i < n && (
            delimiter matches Some(mark) ==> has_no_group(rows[i].key@, prefix_len, mark)),
    decreases n,
{
    let plain = plain_rows(rows, prefix_len, delimiter, n);
    if n > 0 {
        law_plain_rows_have_no_delimiter(rows, prefix_len, delimiter, n - 1);
        let before = plain_rows(rows, prefix_len, delimiter, n - 1);
        let last = n - 1;
        if delimiter is Some {
            law_keys_group_at_the_first_delimiter(rows[last].key@, prefix_len, delimiter->0);
        } else {
            law_keys_group_at_the_first_delimiter(rows[last].key@, prefix_len, Seq::empty());
        }
        let lonely = delimiter matches Some(mark) ==> has_no_group(
            rows[last].key@,
            prefix_len,
            mark,
        );
        assert(lonely <==> row_group(rows, prefix_len, delimiter, last) is None);
        assert forall|a: int, b: int|
            #![trigger plain[a], plain[b]]
            0 <= a < b < plain.len() implies plain[a] < plain[b] by {
            assert(plain[a] == before[a]);
            if b < before.len() {
                assert(plain[b] == before[b]);
            } else {
                assert(before.contains(before[a]));
            }
        }
        assert forall|i: int| #[trigger] plain.contains(i) <==> 0 <= i < n && (
        delimiter matches Some(mark) ==> has_no_group(rows[i].key@, prefix_len, mark)) by {
            if plain.contains(i) {
                let a = choose|a: int| 0 <= a < plain.len() && plain[a] == i;
                if a < before.len() {
                    assert(before[a] == i);
                    assert(before.contains(i));
                }
            } else {
                if before.contains(i) {
                    let a = choose|a: int| 0 <= a < before.len() && before[a] == i;
                    assert(plain[a] == i);
                }
                if i == last && lonely {
                    assert(plain[before.len() as int] == i);
                }
            }
        }
    } else {
        assert(plain =~= Seq::<int>::empty());
    }
}

/// Whether the group is the shortest one of some of the first `n` rows.
pub open spec fn groups_some_row(
    rows: Seq<ObjectSummary>,
    prefix_len: int,
    mark: Seq<char>,
    n: int,
    group: Seq<char>,
) -> bool {
    exists|i: int|
        0 <= i < n && #[trigger] is_shortest_group(rows[i].key@, prefix_len, mark, group)
}

/// The common prefixes of a page are all different, each is the shortest group of
/// a row of it, and the shortest group of each row is among them.
pub proof fn law_common_prefixes_are_shortest_groups(
    rows: Seq<ObjectSummary>,
    prefix_len: int,
    mark: Seq<char>,
    n: int,
    prefixes: Seq<String>,
)
    requires
        0 <= n <= rows.len(),
        forall|i: int| 0 <= i < rows.len() ==> 0 <= prefix_len <= (#[trigger] rows[i]).key@.len(),
        are_groups(rows, prefix_len, Some(mark), n, prefixes),
    ensures
        forall|i: int, j: int|
            #![trigger prefixes[i], prefixes[j]]
            0 <= i < j < prefixes.len() ==> prefixes[i]@ != prefixes[j]@,
        forall|j: int|
            0 <= j < prefixes.len() ==> groups_some_row(
                rows,
                prefix_len,
                mark,
                n,
                (#[trigger] prefixes[j])@,
            ),
        forall|i: int|
            0 <= i < n && !has_no_group((#[trigger] rows[i]).key@, prefix_len, mark) ==> exists|
                j: int,
            |
                0 <= j < prefixes.len() && #[trigger] is_shortest_group(
                    rows[i].key@,
                    prefix_len,
                    mark,
                    prefixes[j]@,
                ),
{
    assert forall|j: int| 0 <= j < prefixes.len() implies groups_some_row(
        rows,
        prefix_len,
        mark,
        n,
        (#[trigger] prefixes[j])@,
    ) by {
        let i = choose|i: int|
            0 <= i < n && #[trigger] row_group(rows, prefix_len, Some(mark), i) == Some(
                prefixes[j]@,
            );
        law_keys_group_at_the_first_delimiter(rows[i].key@, prefix_len, mark);
        assert(is_shortest_group(rows[i].key@, prefix_len, mark, prefixes[j]@));
    }
    assert forall|i: int|
        0 <= i < n && !has_no_group((#[trigger] rows[i]).key@, prefix_len, mark) implies exists|
        j: int,
    |
        0 <= j < prefixes.len() && #[trigger] is_shortest_group(
            rows[i].key@,
            prefix_len,
            mark,
            prefixes[j]@,
        ) by {
        law_keys_group_at_the_first_delimiter(rows[i].key@, prefix_len, mark);
        assert(row_group(rows, prefix_len, Some(mark), i) is Some);
        let group = row_group(rows, prefix_len, Some(mark), i)->0;
        assert(is_among(prefixes, group));
        let j = choose|j: int| 0 <= j < prefixes.len() && (#[trigger] prefixes[j])@ == group;
        assert(is_shortest_group(rows[i].key@, prefix_len, mark, prefixes[j]@));
    }
}

/// Without a delimiter a page has no common prefixes.
pub proof fn law_no_groups_without_a_delimiter(
    rows: Seq<ObjectSummary>,
    prefix_len: int,
    n: int,
    prefixes: Seq<String>,
)
    requires
        are_groups(rows, prefix_len, None, n, prefixes),
    ensures
        prefixes.len() == 0,
{
    if prefixes.len() > 0 {
        assert(some_row_has(rows, prefix_len, None, n, prefixes[0]@));
        let i = choose|i: int|
            0 <= i < n && #[trigger] row_group(rows, prefix_len, None, i) == Some(prefixes[0]@);
        assert(row_group(rows, prefix_len, None, i) is None);
    }
}

/// Each part of a read holds some bytes of its segment, and the parts come in the
/// order of the segments, one of each at most.
pub proof fn law_segment_parts_are_not_empty(
    sizes: Seq<u64>,
    start: int,
    end: int,
    n: int,
    i: int,
)
    requires
        sizes.len() <= usize::MAX,
        size_before(sizes, sizes.len() as int) <= u64::MAX,
        0 <= start,
        0 <= n <= sizes.len(),
        0 <= i < segment_parts(sizes, start, end, n).len(),
    ensures
        ({
            let part = segment_parts(sizes, start, end, n)[i];
            &&& part.index < n
            &&& part.start < part.end <= sizes[part.index as int]
            &&& i > 0 ==> segment_parts(sizes, start, end, n)[i - 1].index < part.index
        }),
    decreases n,
{
    let before = segment_parts(sizes, start, end, n - 1);
    lemma_size_before(sizes, 0, n - 1);
    lemma_size_before(sizes, n - 1, n);
    lemma_size_before(sizes, n, sizes.len() as int);
    if i < before.len() {
        law_segment_parts_are_not_empty(sizes, start, end, n - 1, i);
    } else if i > 0 {
        law_segment_parts_are_not_empty(sizes, start, end, n - 1, i - 1);
    }
}

/// The range promise: a range from a first byte on asks for exactly the bytes of
/// the object from it up to the last one that it names, and is refused exactly
/// where the object has none of them.
pub proof fn law_ranges_ask_for_their_bytes(first: u64, last: Option<u64>, size: int, x: int)
    requires
        0 <= size <= u64::MAX,
    ensures
        ({
            let asked = first <= x < size && (last matches Some(l) ==> x <= l);
            match range_of(RequestedRange::Int { first, last }, size) {
                Some((start, end)) => {
                    &&& start <= x < end <==> asked
                    &&& start < end
                },
                None => !asked,
            }
        }),
{
}

/// A suffix asks for exactly the last bytes, as many as it counts or all that
/// there are. It is refused exactly where it counts none.
pub proof fn law_suffixes_ask_for_the_last_bytes(length: u64, size: int, x: int)
    requires
        0 <= size <= u64::MAX,
    ensures
        match range_of(RequestedRange::Suffix { length }, size) {
            Some((start, end)) => {
                &&& length > 0
                &&& end == size
                &&& 0 <= start <= end
                &&& start <= x < end <==> 0 <= x < size && size - x <= length
            },
            None => length == 0,
        },
{
}

/// Whether stored part `k` is the first that has the number.
pub open spec fn first_numbered(stored: Seq<PartRecord>, number: i32, k: int) -> bool {
    &&& 0 <= k < stored.len()
    &&& stored[k].number == number
    &&& forall|j: int| 0 <= j < k ==> (#[trigger] stored[j]).number != number
}

/// A selection holds one stored part for each that was asked for: the one with its
/// number and its tag. The numbers ascend from one on.
pub proof fn law_selected_parts_are_those_named(
    requested: Seq<RequestedPart>,
    stored: Seq<PartRecord>,
    selected: Seq<usize>,
    i: int,
)
    requires
        is_selection(requested, stored, selected),
        0 <= i < selected.len(),
    ensures
        selected.len() == requested.len(),
        ({
            let part = stored[selected[i] as int];
            &&& first_numbered(stored, part.number, selected[i] as int)
            &&& requested[i].number == Some(part.number)
            &&& requested[i].etag matches Some(tag) && tag@ == part.etag@
            &&& part.number >= 1
            &&& i > 0 ==> stored[selected[i - 1] as int].number < part.number
        }),
    decreases i,
{
    assert(names_part(requested, stored, i, selected[i] as int));
    if i > 0 {
        assert(names_part(requested, stored, i - 1, selected[i - 1] as int));
        law_selected_parts_are_those_named(requested, stored, selected, i - 1);
    }
}

/// A part is refused for its order exactly if its number is not above the one
/// asked for before it. It is invalid if it has no number, or if no part with its
/// number and tag is stored.
pub proof fn law_parts_are_refused_for_a_reason(
    requested: Seq<RequestedPart>,
    stored: Seq<PartRecord>,
    i: int,
)
    requires
        0 <= i < requested.len(),
    ensures
        ({
            let before = if i == 0 {
                0
            } else {
                match requested[i - 1].number {
                    Some(n) => n as int,
                    None => 0,
                }
            };
            match requested[i].number {
                None => part_error(requested, stored, i) == Some(S3Code::InvalidPart),
                Some(number) => if number <= before {
                    part_error(requested, stored, i) == Some(S3Code::InvalidPartOrder)
                } else {
                    let found = exists|k: int| #[trigger]
                        first_numbered(stored, number, k) && requested[i].etag is Some
                            && requested[i].etag->0@ == stored[k].etag@;
                    part_error(requested, stored, i) == if found {
                        None
                    } else {
                        Some(S3Code::InvalidPart)
                    }
                },
            }
        }),
{
    if requested[i].number is Some {
        let number = requested[i].number->0;
        if number > previous_number(requested, i) {
            if exists|k: int| names_part(requested, stored, i, k) {
                let k = choose|k: int| names_part(requested, stored, i, k);
                assert(names_part(requested, stored, i, k));
                assert(first_numbered(stored, number, k));
            }
            if exists|k: int| #[trigger]
                first_numbered(stored, number, k) && requested[i].etag is Some
                    && requested[i].etag->0@ == stored[k].etag@ {
                let k = choose|k: int| #[trigger]
                    first_numbered(stored, number, k) && requested[i].etag is Some
                        && requested[i].etag->0@ == stored[k].etag@;
                assert(names_part(requested, stored, i, k));
            }
        }
    }
}

proof fn lemma_selected_in_parts(stored: Seq<PartRecord>, selected: Seq<usize>, n: int)
    requires
        0 <= n <= selected.len(),
    ensures
        selected_size(stored, selected, n) == total(
            selected.take(n).map_values(|k: usize| stored[k as int].size as int),
        ),
        selected_segments(stored, selected, n) == joined(
            selected.take(n).map_values(|k: usize| stored[k as int].segments@),
        ),
        part_hashes(stored, selected, n) == joined(
            selected.take(n).map_values(|k: usize| hex_bytes(stored[k as int].etag@)),
        ),
    decreases n,
{
    let sizes = selected.take(n).map_values(|k: usize| stored[k as int].size as int);
    let segments = selected.take(n).map_values(|k: usize| stored[k as int].segments@);
    let hashes = selected.take(n).map_values(|k: usize| hex_bytes(stored[k as int].etag@));
    if n > 0 {
        lemma_selected_in_parts(stored, selected, n - 1);
        assert(sizes.drop_last() =~= selected.take(n - 1).map_values(
            |k: usize| stored[k as int].size as int,
        ));
        assert(segments.drop_last() =~= selected.take(n - 1).map_values(
            |k: usize| stored[k as int].segments@,
        ));
        assert(hashes.drop_last() =~= selected.take(n - 1).map_values(
            |k: usize| hex_bytes(stored[k as int].etag@),
        ));
    }
}

/// Whether the selected parts are stored, one for each that was asked for by its
/// number and tag, in ascending order, and all but the last of five mebibytes at
/// least.
pub open spec fn is_good_selection(
    requested: Seq<RequestedPart>,
    stored: Seq<PartRecord>,
    selected: Seq<usize>,
) -> bool {
    &&& selected.len() == requested.len()
    &&& forall|i: int|
        0 <= i < selected.len() ==> {
            let k = #[trigger] selected[i] as int;
            &&& 0 <= k < stored.len()
            &&& first_numbered(stored, stored[k].number, k)
            &&& requested[i].number == Some(stored[k].number)
            &&& requested[i].etag matches Some(tag) && tag@ == stored[k].etag@
            &&& stored[k].number >= 1
            &&& i < selected.len() - 1 ==> stored[k].size >= 5 * 1024 * 1024
        }
    &&& forall|i: int, j: int|
        #![trigger selected[i], selected[j]]
        0 <= i && j == i + 1 && j < selected.len() ==> stored[selected[i] as int].number
            < stored[selected[j] as int].number
}

/// The multipart promise: a completed upload is made of the parts that were asked
/// for. Its size is the sum of theirs, its segments are theirs, one part after the
/// other, and its tag is the MD5 hash of their hashes with their count.
pub proof fn law_completions_join_the_named_parts(
    upload: Option<(&str, &str)>,
    bucket: Seq<char>,
    key: Seq<char>,
    requested: Option<Seq<RequestedPart>>,
    stored: Seq<PartRecord>,
    max_object_size: u64,
    object: CompletedUpload,
)
    requires
        is_completion(upload, bucket, key, requested, stored, max_object_size, Ok(object)),
    ensures
        upload matches Some((b, k)) && b@ == bucket && k@ == key,
        requested is Some,
        object.size <= max_object_size,
        exists|selected: Seq<usize>| #[trigger]
            is_good_selection(requested->0, stored, selected) && {
                &&& object.size == total(
                    selected.map_values(|k: usize| stored[k as int].size as int),
                )
                &&& object.segments@ == joined(
                    selected.map_values(|k: usize| stored[k as int].segments@),
                )
                &&& object.etag@ == hex_text(
                    md5_of(
                        joined(
                            selected.map_values(|k: usize| hex_bytes(stored[k as int].etag@)),
                        ),
                    ),
                ) + "-"@ + decimal(selected.len())
            },
{
    let parts = requested->0;
    let selected = choose|selected: Seq<usize>| #[trigger]
        is_selection(parts, stored, selected) && {
            &&& !has_small_part(stored, selected)
            &&& forall|i: int|
                0 <= i < selected.len() ==> is_hex(stored[#[trigger] selected[i] as int].etag@)
            &&& object.size == selected_size(stored, selected, selected.len() as int)
            &&& object.size <= max_object_size
            &&& object.segments@ == selected_segments(stored, selected, selected.len() as int)
            &&& object.etag@ == hex_text(
                md5_of(part_hashes(stored, selected, selected.len() as int)),
            ) + "-"@ + decimal(selected.len())
        };
    lemma_selected_in_parts(stored, selected, selected.len() as int);
    assert(selected.take(selected.len() as int) =~= selected);
    lemma_good_selection(parts, stored, selected);
}

proof fn lemma_good_selection(
    requested: Seq<RequestedPart>,
    stored: Seq<PartRecord>,
    selected: Seq<usize>,
)
    ensures
        is_good_selection(requested, stored, selected) <==> is_selection(
            requested,
            stored,
            selected,
        ) && !has_small_part(stored, selected),
{
    if is_selection(requested, stored, selected) && !has_small_part(stored, selected) {
        assert forall|i: int| 0 <= i < selected.len() implies {
            let k = #[trigger] selected[i] as int;
            &&& 0 <= k < stored.len()
            &&& first_numbered(stored, stored[k].number, k)
            &&& requested[i].number == Some(stored[k].number)
            &&& requested[i].etag matches Some(tag) && tag@ == stored[k].etag@
            &&& stored[k].number >= 1
            &&& i < selected.len() - 1 ==> stored[k].size >= 5 * 1024 * 1024
        } by {
            law_selected_parts_are_those_named(requested, stored, selected, i);
        }
        assert forall|i: int, j: int|
            #![trigger selected[i], selected[j]]
            0 <= i && j == i + 1 && j < selected.len() implies stored[selected[i] as int].number
            < stored[selected[j] as int].number by {
            law_selected_parts_are_those_named(requested, stored, selected, j);
        }
    }
    if is_good_selection(requested, stored, selected) {
        assert forall|i: int| 0 <= i < selected.len() implies names_part(
            requested,
            stored,
            i,
            #[trigger] selected[i] as int,
        ) by {
            if i > 0 {
                let before = selected[i - 1];
                assert(stored[selected[i - 1] as int].number < stored[selected[i] as int].number);
            }
        }
        assert forall|i: int| 0 <= i < selected.len() - 1 implies stored[
            #[trigger] selected[i] as int
        ].size >= MIN_MULTIPART_PART by {
            assert(stored[selected[i] as int].size >= 5 * 1024 * 1024);
        }
    }
}

proof fn lemma_one_selection(
    requested: Seq<RequestedPart>,
    stored: Seq<PartRecord>,
    one: Seq<usize>,
    other: Seq<usize>,
)
    requires
        is_selection(requested, stored, one),
        is_selection(requested, stored, other),
    ensures
        one == other,
{
    assert forall|i: int| 0 <= i < one.len() implies one[i] == other[i] by {
        let a = one[i] as int;
        let b = other[i] as int;
        assert(names_part(requested, stored, i, a));
        assert(names_part(requested, stored, i, b));
        if a < b {
            assert(stored[a].number != stored[b].number);
        }
        if b < a {
            assert(stored[b].number != stored[a].number);
        }
    }
    assert(one =~= other);
}

/// A completion is owed: where the upload is the named one, its parts are stored
/// as asked for, large enough and together not too large, and their tags are
/// hashes, it succeeds.
pub proof fn law_good_completions_succeed(
    upload: Option<(&str, &str)>,
    bucket: Seq<char>,
    key: Seq<char>,
    requested: Seq<RequestedPart>,
    stored: Seq<PartRecord>,
    max_object_size: u64,
    selected: Seq<usize>,
    answer: Result<CompletedUpload, S3Code>,
)
    requires
        is_completion(upload, bucket, key, Some(requested), stored, max_object_size, answer),
        upload matches Some((b, k)) && b@ == bucket && k@ == key,
        is_good_selection(requested, stored, selected),
        forall|i: int|
            0 <= i < selected.len() ==> is_hex(stored[#[trigger] selected[i] as int].etag@),
        total(selected.map_values(|k: usize| stored[k as int].size as int)) <= max_object_size,
    ensures
        answer is Ok,
{
    lemma_good_selection(requested, stored, selected);
    lemma_selected_in_parts(stored, selected, selected.len() as int);
    assert(selected.take(selected.len() as int) =~= selected);
    if answer is Err {
        let e = answer->Err_0;
        if exists|i: int| #[trigger]
            is_first_bad_part(requested, stored, i) && part_error(requested, stored, i) == Some(
                e,
            ) {
            let i = choose|i: int| #[trigger]
                is_first_bad_part(requested, stored, i) && part_error(requested, stored, i)
                    == Some(e);
            assert(names_part(requested, stored, i, selected[i] as int));
            assert(part_error(requested, stored, i) is None);
        } else {
            let other = choose|other: Seq<usize>| #[trigger]
                is_selection(requested, stored, other) && if has_small_part(stored, other) {
                    e == S3Code::EntityTooSmall
                } else if selected_size(stored, other, other.len() as int) > max_object_size {
                    e == S3Code::EntityTooLarge
                } else {
                    &&& e == S3Code::InternalError
                    &&& exists|i: int|
                        0 <= i < other.len() && !is_hex(
                            stored[#[trigger] other[i] as int].etag@,
                        )
                };
            lemma_one_selection(requested, stored, selected, other);
        }
    }
}

/// A completion of an upload that is not known, or is one of another object, is
/// refused as that, and one that names no list of parts as invalid.
pub proof fn law_completions_need_their_upload(
    upload: Option<(&str, &str)>,
    bucket: Seq<char>,
    key: Seq<char>,
    requested: Option<Seq<RequestedPart>>,
    stored: Seq<PartRecord>,
    max_object_size: u64,
    answer: Result<CompletedUpload, S3Code>,
)
    requires
        is_completion(upload, bucket, key, requested, stored, max_object_size, answer),
    ensures
        (upload matches Some((b, k)) ==> b@ != bucket || k@ != key) ==> answer == Err::<
            CompletedUpload,
            S3Code,
        >(S3Code::NoSuchUpload),
        (upload matches Some((b, k)) && b@ == bucket && k@ == key) && requested is None
            ==> answer == Err::<CompletedUpload, S3Code>(S3Code::InvalidPart),
{
}

/// Whether a pattern matches a text: a percent sign stands for any text, an
/// underscore for any character, and what follows a backslash for itself.
pub open spec fn like_matches(pattern: Seq<char>, text: Seq<char>) -> bool
    decreases pattern.len(),
{
    if pattern.len() == 0 {
        text.len() == 0
    } else if pattern[0] == '%' {
        exists|k: int|
            0 <= k <= text.len() && like_matches(pattern.skip(1), #[trigger] text.skip(k))
    } else if pattern[0] == '\\' && pattern.len() >= 2 {
        text.len() > 0 && text[0] == pattern[1] && like_matches(pattern.skip(2), text.skip(1))
    } else {
        text.len() > 0 && (pattern[0] == '_' || text[0] == pattern[0]) && like_matches(
            pattern.skip(1),
            text.skip(1),
        )
    }
}

proof fn lemma_escaped_first(text: Seq<char>)
    requires
        text.len() > 0,
    ensures
        like_escaped(text) == (if is_wild(text[0]) {
            seq!['\\', text[0]]
        } else {
            seq![text[0]]
        }) + like_escaped(text.skip(1)),
    decreases text.len(),
{
    let head = if is_wild(text[0]) {
        seq!['\\', text[0]]
    } else {
        seq![text[0]]
    };
    if text.len() == 1 {
        assert(text.drop_last() =~= Seq::<char>::empty());
        assert(text.skip(1) =~= Seq::<char>::empty());
        assert(like_escaped(text) =~= head + like_escaped(text.skip(1)));
    } else {
        lemma_escaped_first(text.drop_last());
        assert(text.drop_last().skip(1) =~= text.skip(1).drop_last());
        assert(like_escaped(text) =~= head + like_escaped(text.skip(1)));
    }
}

/// The pattern promise: the pattern of a prefix matches exactly the keys that start
/// with it, whatever characters it holds.
pub proof fn law_prefix_patterns_match_their_keys(prefix: Seq<char>, key: Seq<char>)
    ensures
        like_matches(like_escaped(prefix) + "%"@, key) <==> prefix.len() <= key.len() && key.take(
            prefix.len() as int,
        ) == prefix,
    decreases prefix.len(),
{
    reveal_strlit("%");
    let pattern = like_escaped(prefix) + "%"@;
    if prefix.len() == 0 {
        assert(pattern =~= seq!['%']);
        assert(pattern.skip(1).len() == 0);
        assert(key.skip(key.len() as int).len() == 0);
        assert(like_matches(pattern.skip(1), key.skip(key.len() as int)));
        assert(key.take(0) =~= prefix);
    } else {
        let rest = prefix.skip(1);
        lemma_escaped_first(prefix);
        let tail = like_escaped(rest) + "%"@;
        if is_wild(prefix[0]) {
            assert(pattern[0] == '\\' && pattern[1] == prefix[0]);
            assert(pattern.skip(2) =~= tail);
        } else {
            assert(pattern[0] == prefix[0]);
            assert(pattern.skip(1) =~= tail);
        }
        assert(like_matches(pattern, key) <==> key.len() > 0 && key[0] == prefix[0]
            && like_matches(tail, key.skip(1)));
        if key.len() > 0 {
            law_prefix_patterns_match_their_keys(rest, key.skip(1));
            if prefix.len() <= key.len() {
                if key.take(prefix.len() as int) == prefix {
                    assert(key[0] == key.take(prefix.len() as int)[0]);
                    assert(key.skip(1).take(rest.len() as int) =~= rest) by {
                        assert forall|i: int| 0 <= i < rest.len() implies key.skip(1).take(
                            rest.len() as int,
                        )[i] == rest[i] by {
                            assert(key.take(prefix.len() as int)[i + 1] == prefix[i + 1]);
                        }
                    }
                }
                if key[0] == prefix[0] && key.skip(1).take(rest.len() as int) == rest {
                    assert forall|i: int| 0 <= i < prefix.len() implies key.take(
                        prefix.len() as int,
                    )[i] == prefix[i] by {
                        if i > 0 {
                            assert(key.skip(1).take(rest.len() as int)[i - 1] == rest[i - 1]);
                        }
                    }
                    assert(key.take(prefix.len() as int) =~= prefix);
                }
            }
        }
    }
}

/// The limits of the store: parts of five mebibytes, ten thousand of them, and
/// pages of a thousand keys. What nothing refers to is kept for an hour.
pub proof fn law_limits_of_the_store()
    ensures
        MIN_MULTIPART_PART == 5 * 1024 * 1024,
        MAX_PART_NUMBER == 10_000,
        MAX_PAGE == 1_000,
        GARBAGE_AGE == 60 * 60,
{
}

/// Whether the selected parts are stored, one for each that was asked for by its
/// number and tag, in ascending order, whatever their sizes are.
pub open spec fn is_named_selection(
    requested: Seq<RequestedPart>,
    stored: Seq<PartRecord>,
    selected: Seq<usize>,
) -> bool {
    &&& selected.len() == requested.len()
    &&& forall|i: int|
        0 <= i < selected.len() ==> {
            let k = #[trigger] selected[i] as int;
            &&& 0 <= k < stored.len()
            &&& first_numbered(stored, stored[k].number, k)
            &&& requested[i].number == Some(stored[k].number)
            &&& requested[i].etag matches Some(tag) && tag@ == stored[k].etag@
            &&& stored[k].number >= 1
        }
    &&& forall|i: int, j: int|
        #![trigger selected[i], selected[j]]
        0 <= i && j == i + 1 && j < selected.len() ==> stored[selected[i] as int].number
            < stored[selected[j] as int].number
}

/// A completion whose parts are all stored is refused for their sizes first: as too
/// small where one but the last is under five mebibytes, then as too large where they
/// are together. What is left is a stored tag that is no hash.
pub proof fn law_completions_are_refused_for_their_sizes(
    upload: Option<(&str, &str)>,
    bucket: Seq<char>,
    key: Seq<char>,
    requested: Seq<RequestedPart>,
    stored: Seq<PartRecord>,
    max_object_size: u64,
    selected: Seq<usize>,
    answer: Result<CompletedUpload, S3Code>,
)
    requires
        is_completion(upload, bucket, key, Some(requested), stored, max_object_size, answer),
        upload matches Some((b, k)) && b@ == bucket && k@ == key,
        is_named_selection(requested, stored, selected),
    ensures
        ({
            let small = exists|i: int|
                0 <= i < selected.len() - 1 && stored[#[trigger] selected[i] as int].size < 5 * 1024
                    * 1024;
            let large = total(selected.map_values(|k: usize| stored[k as int].size as int))
                > max_object_size;
            &&& small <==> answer == Err::<CompletedUpload, S3Code>(S3Code::EntityTooSmall)
            &&& !small && large <==> answer == Err::<CompletedUpload, S3Code>(
                S3Code::EntityTooLarge,
            )
            &&& answer matches Err(e) ==> (!small && !large ==> e == S3Code::InternalError)
        }),
{
    assert forall|i: int| 0 <= i < selected.len() implies names_part(
        requested,
        stored,
        i,
        #[trigger] selected[i] as int,
    ) by {
        if i > 0 {
            let before = selected[i - 1];
            assert(stored[selected[i - 1] as int].number < stored[selected[i] as int].number);
        }
    }
    assert(is_selection(requested, stored, selected));
    lemma_selected_in_parts(stored, selected, selected.len() as int);
    assert(selected.take(selected.len() as int) =~= selected);
    match answer {
        Ok(object) => {
            let other = choose|other: Seq<usize>| #[trigger]
                is_selection(requested, stored, other) && {
                    &&& !has_small_part(stored, other)
                    &&& object.size == selected_size(stored, other, other.len() as int)
                    &&& object.size <= max_object_size
                };
            lemma_one_selection(requested, stored, selected, other);
        },
        Err(e) => {
            if exists|i: int| #[trigger]
                is_first_bad_part(requested, stored, i) && part_error(requested, stored, i)
                    == Some(e) {
                let i = choose|i: int| #[trigger]
                    is_first_bad_part(requested, stored, i) && part_error(requested, stored, i)
                        == Some(e);
                assert(names_part(requested, stored, i, selected[i] as int));
                assert(part_error(requested, stored, i) is None);
            } else {
                let other = choose|other: Seq<usize>| #[trigger]
                    is_selection(requested, stored, other) && if has_small_part(stored, other) {
                        e == S3Code::EntityTooSmall
                    } else if selected_size(stored, other, other.len() as int) > max_object_size {
                        e == S3Code::EntityTooLarge
                    } else {
                        &&& e == S3Code::InternalError
                        &&& exists|i: int|
                            0 <= i < other.len() && !is_hex(
                                stored[#[trigger] other[i] as int].etag@,
                            )
                    };
                lemma_one_selection(requested, stored, selected, other);
            }
        },
    }
}

} // verus!
