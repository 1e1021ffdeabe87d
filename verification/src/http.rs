//! The HTTP rules of the file server: byte ranges, response headers and the
//! status of each error.
use std::ops::Range;

use vstd::prelude::*;
use vstd::string::*;

use crate::catalog::CatalogError;
use crate::stream::{at_least, at_most};
use crate::text::{
    chars_of, decimal, digit_value, find_char, law_decimals_read_back, parse_number, parsed,
    push_decimal, push_text, starts_with, strip_prefix,
};
use crate::upload::UploadError;

verus! {

#[derive(Clone, Copy, Debug, PartialEq, Eq, Structural)]
pub struct ServerConfig {
    pub frame_size: usize,
    pub max_file_size: u64,
}

impl Default for ServerConfig {
    fn default() -> (config: ServerConfig)
        ensures
            config == (ServerConfig { frame_size: 65_536, max_file_size: 21_474_836_480 }),
    {
        ServerConfig { frame_size: 65_536, max_file_size: 21_474_836_480 }
    }
}

/// An error that a client sees: a status, a text, and the extent of the file
/// where a range was refused.
#[derive(Debug, PartialEq, Eq)]
pub struct ApiError {
    pub status: u16,
    pub message: String,
    pub content_range: Option<String>,
}

impl ApiError {
    pub fn new(status: u16, message: &str) -> (error: ApiError)
        ensures
            error.status == status,
            error.message@ == message@,
            error.content_range is None,
    {
        ApiError { status, message: message.to_owned(), content_range: None }
    }

    pub fn internal(message: &str) -> (error: ApiError)
        ensures
            error.status == 500,
            error.message@ == message@,
            error.content_range is None,
    {
        ApiError::new(500, message)
    }

    /// The error of an upload that was refused; `None` stands for any other
    /// failure, with its own text.
    pub fn upload(error: Option<UploadError>, message: &str) -> (response: ApiError)
        ensures
            response.status == upload_status(error),
            response.message@ == message@,
            response.content_range is None,
    {
        let status: u16 = match error {
            Some(UploadError::TooLarge { .. }) => 413,
            Some(UploadError::LengthMismatch { .. }) => 400,
            Some(UploadError::Empty) => 400,
            _ => 502,
        };
        ApiError::new(status, message)
    }

    /// The error of a catalog that refused.
    pub fn catalog(error: CatalogError) -> (response: ApiError)
        ensures
            response.status == catalog_status(error),
            response.message@ == error.text(),
            response.content_range is None,
    {
        let status: u16 = match error {
            CatalogError::NotFound => 404,
            _ => 409,
        };
        ApiError::new(status, error.message())
    }
}

/// The status of an upload that failed: the body is too large, or is not what
/// was announced, or the storage behind failed.
pub open spec fn upload_status(error: Option<UploadError>) -> u16 {
    match error {
        Some(UploadError::TooLarge { .. }) => 413,
        Some(UploadError::LengthMismatch { .. }) => 400,
        Some(UploadError::Empty) => 400,
        _ => 502,
    }
}

/// The status of what the catalog refused: unknown, or in conflict.
pub open spec fn catalog_status(error: CatalogError) -> u16 {
    match error {
        CatalogError::NotFound => 404,
        _ => 409,
    }
}

/// Checks the size that a new file asks for against the limit of the server.
pub fn check_allocation(expected_size: u64, config: &ServerConfig) -> (checked: Result<
    (),
    ApiError,
>)
    ensures
        match checked {
            Ok(_) => expected_size <= config.max_file_size,
            Err(e) => {
                &&& expected_size > config.max_file_size
                &&& e.status == 413
                &&& e.message@ == "file allocation exceeds server limit"@
                &&& e.content_range is None
            },
        },
{
    if expected_size > config.max_file_size {
        return Err(ApiError::new(413, "file allocation exceeds server limit"));
    }
    Ok(())
}

/// Checks the request for a new file that has a name.
pub fn check_new_file(name: &str, expected_size: u64, config: &ServerConfig) -> (checked: Result<
    (),
    ApiError,
>)
    ensures
        match checked {
            Ok(_) => expected_size <= config.max_file_size && name@.len() > 0,
            Err(e) => {
                &&& e.content_range is None
                &&& if expected_size > config.max_file_size {
                    e.status == 413 && e.message@ == "file allocation exceeds server limit"@
                } else {
                    name@.len() == 0 && e.status == 400 && e.message@ == "file name is required"@
                }
            },
        },
{
    match check_allocation(expected_size, config) {
        Ok(_) => {},
        Err(error) => {
            return Err(error);
        },
    }
    if name.is_empty() {
        return Err(ApiError::new(400, "file name is required"));
    }
    Ok(())
}

/// The length that a request announces, where it announces one.
pub fn content_length(value: Option<&str>) -> (length: Option<u64>)
    ensures
        match value {
            None => length is None,
            Some(text) => match length {
                Some(n) => parsed(text@, 10, u64::MAX as int) == Some(n as int),
                None => parsed(text@, 10, u64::MAX as int) is None,
            },
        },
{
    match value {
        None => None,
        Some(text) => {
            let chars: Vec<char> = chars_of(text);
            parse_number(chars.as_slice(), 10, u64::MAX)
        },
    }
}

/// The bytes that a range with the given ends asks for: from a start, from a
/// start to a last byte, or the last bytes of the file.
pub open spec fn range_between(start: Seq<char>, end: Seq<char>, size: int) -> Option<(int, int)> {
    if start.len() == 0 {
        match parsed(end, 10, u64::MAX as int) {
            Some(suffix) => if suffix == 0 || size == 0 {
                None
            } else {
                Some((at_least(size - suffix, 0), size))
            },
            None => None,
        }
    } else {
        match parsed(start, 10, u64::MAX as int) {
            Some(first) => if first >= size {
                None
            } else if end.len() == 0 {
                Some((first, size))
            } else {
                match parsed(end, 10, u64::MAX as int) {
                    Some(last) => if first >= at_most(last + 1, size) {
                        None
                    } else {
                        Some((first, at_most(last + 1, size)))
                    },
                    None => None,
                }
            },
            None => None,
        }
    }
}

/// The bytes that a range header asks for: a single range in bytes, split at
/// its first dash.
pub open spec fn requested_range(value: Seq<char>, size: int) -> Option<(int, int)> {
    let rest = value.skip("bytes="@.len() as int);
    if !starts_with(value, "bytes="@) || rest.contains(',') || !rest.contains('-') {
        None
    } else {
        let dash = first_index(rest, '-');
        range_between(rest.take(dash), rest.skip(dash + 1), size)
    }
}

/// Where the character first occurs.
pub open spec fn first_index(text: Seq<char>, c: char) -> int {
    choose|i: int| 0 <= i < text.len() && text[i] == c && !text.take(i).contains(c)
}

proof fn lemma_first_index(text: Seq<char>, c: char, i: int)
    requires
        0 <= i < text.len(),
        text[i] == c,
        !text.take(i).contains(c),
    ensures
        first_index(text, c) == i,
{
    let j = first_index(text, c);
    assert(0 <= j < text.len() && text[j] == c && !text.take(j).contains(c));
    if j < i {
        assert(text.take(i)[j] == c);
    }
    if i < j {
        assert(text.take(j)[i] == c);
    }
}

/// The error of a range that cannot be served.
pub fn range_error(size: u64) -> (error: ApiError)
    ensures
        error.status == 416,
        error.message@ == "invalid byte range for "@ + decimal(size as nat) + "-byte file"@,
        error.content_range matches Some(extent) && extent@ == "bytes */"@ + decimal(size as nat),
{
    let mut message: String = String::new();
    push_text(&mut message, "invalid byte range for ");
    push_decimal(&mut message, size);
    push_text(&mut message, "-byte file");
    assert(message@ =~= "invalid byte range for "@ + decimal(size as nat) + "-byte file"@);
    let mut extent: String = String::new();
    push_text(&mut extent, "bytes */");
    push_decimal(&mut extent, size);
    assert(extent@ =~= "bytes */"@ + decimal(size as nat));
    ApiError { status: 416, message, content_range: Some(extent) }
}

fn number(chars: &[char]) -> (value: Option<u64>)
    ensures
        match value {
            Some(n) => parsed(chars@, 10, u64::MAX as int) == Some(n as int),
            None => parsed(chars@, 10, u64::MAX as int) is None,
        },
{
    parse_number(chars, 10, u64::MAX)
}

/// Reads a range header. Without one the whole file is asked for.
pub fn parse_range(value: Option<&str>, size: u64) -> (range: Result<Range<u64>, ApiError>)
    ensures
        match range {
            Ok(r) => match value {
                None => r.start == 0 && r.end == size,
                Some(text) => requested_range(text@, size as int) == Some(
                    (r.start as int, r.end as int),
                ),
            },
            Err(e) => {
                &&& value matches Some(text) && requested_range(text@, size as int) is None
                &&& e.status == 416
                &&& e.message@ == "invalid byte range for "@ + decimal(size as nat)
                    + "-byte file"@
                &&& e.content_range matches Some(extent) && extent@ == "bytes */"@ + decimal(
                    size as nat,
                )
            },
        },
{
    let text: &str = match value {
        None => {
            return Ok(0..size);
        },
        Some(text) => text,
    };
    let chars: Vec<char> = chars_of(text);
    let rest: Vec<char> = match strip_prefix(chars.as_slice(), "bytes=") {
        Some(rest) => rest,
        None => {
            return Err(range_error(size));
        },
    };
    if find_char(rest.as_slice(), ',').is_some() {
        proof {
            let i = choose|i: int| 0 <= i < rest@.len() && rest@[i] == ',';
            assert(rest@.contains(','));
        }
        return Err(range_error(size));
    }
    let dash: usize = match find_char(rest.as_slice(), '-') {
        Some(dash) => dash,
        None => {
            return Err(range_error(size));
        },
    };
    proof {
        assert(rest@[dash as int] == '-');
        assert(rest@.contains('-'));
        lemma_first_index(rest@, '-', dash as int);
    }
    let start: &[char] = vstd::slice::slice_subrange(rest.as_slice(), 0, dash);
    let end: &[char] = vstd::slice::slice_subrange(rest.as_slice(), dash + 1, rest.len());
    proof {
        assert(start@ =~= rest@.take(dash as int));
        assert(end@ =~= rest@.skip(dash + 1));
    }
    if start.len() == 0 {
        match number(end) {
            Some(suffix) => {
                if suffix == 0 || size == 0 {
                    Err(range_error(size))
                } else {
                    Ok(size.saturating_sub(suffix)..size)
                }
            },
            None => Err(range_error(size)),
        }
    } else {
        let first: u64 = match number(start) {
            Some(first) => first,
            None => {
                return Err(range_error(size));
            },
        };
        if first >= size {
            return Err(range_error(size));
        }
        let stop: u64 = if end.len() == 0 {
            size
        } else {
            match number(end) {
                Some(last) => {
                    let next: u64 = last.saturating_add(1);
                    if next <= size { next } else { size }
                },
                None => {
                    return Err(range_error(size));
                },
            }
        };
        if first >= stop {
            return Err(range_error(size));
        }
        Ok(first..stop)
    }
}

/// A range that is asked for and served is not empty and lies within the file.
pub proof fn law_ranges_stay_within_the_file(value: Seq<char>, size: int)
    requires
        0 <= size <= u64::MAX,
    ensures
        requested_range(value, size) matches Some((start, end)) ==> 0 <= start < end <= size,
{
    let rest = value.skip("bytes="@.len() as int);
    let dash = first_index(rest, '-');
    lemma_range_between(rest.take(dash), rest.skip(dash + 1), size);
}

proof fn lemma_range_between(start: Seq<char>, end: Seq<char>, size: int)
    requires
        0 <= size <= u64::MAX,
    ensures
        range_between(start, end, size) matches Some((first, stop)) ==> 0 <= first < stop <= size,
{
    lemma_parsed_is_a_count(start);
    lemma_parsed_is_a_count(end);
}

proof fn lemma_parsed_is_a_count(text: Seq<char>)
    ensures
        parsed(text, 10, u64::MAX as int) matches Some(n) ==> 0 <= n <= u64::MAX,
{
    let digits = crate::text::digits_of(text);
    if parsed(text, 10, u64::MAX as int) is Some {
        lemma_number_is_not_negative(digits);
    }
}

proof fn lemma_number_is_not_negative(digits: Seq<char>)
    requires
        forall|i: int| 0 <= i < digits.len() ==> crate::text::is_digit(#[trigger] digits[i], 10),
    ensures
        crate::text::number_value(digits, 10) >= 0,
    decreases digits.len(),
{
    if digits.len() > 0 {
        lemma_number_is_not_negative(digits.drop_last());
        assert(crate::text::is_digit(digits[digits.len() - 1], 10));
    }
}

/// A lower case hexadecimal digit.
pub open spec fn hex_digit(d: int) -> char {
    if d < 10 {
        (48 + d) as char
    } else {
        (87 + d) as char
    }
}

/// Bytes in lower case hexadecimal, two digits each.
pub open spec fn hex_text(bytes: Seq<u8>) -> Seq<char>
    decreases bytes.len(),
{
    if bytes.len() == 0 {
        Seq::empty()
    } else {
        hex_text(bytes.drop_last()).push(hex_digit(bytes.last() as int / 16)).push(
            hex_digit(bytes.last() as int % 16),
        )
    }
}

fn hex_char(d: u8) -> (c: char)
    requires
        d < 16,
    ensures
        c == hex_digit(d as int),
{
    if d < 10 {
        (48 + d) as char
    } else {
        (87 + d) as char
    }
}

/// Writes bytes in lower case hexadecimal.
pub fn hex(bytes: &[u8]) -> (text: String)
    ensures
        text@ == hex_text(bytes@),
{
    let mut text: String = String::new();
    let mut i: usize = 0;
    proof {
        assert(bytes@.take(0) =~= Seq::<u8>::empty());
    }
    while i < bytes.len()
        invariant
            i <= bytes.len(),
            text@ == hex_text(bytes@.take(i as int)),
        decreases bytes.len() - i,
    {
        proof {
            assert(bytes@.take(i + 1).drop_last() =~= bytes@.take(i as int));
            assert(bytes@.take(i + 1).last() == bytes@[i as int]);
        }
        text.push(hex_char(bytes[i] / 16));
        text.push(hex_char(bytes[i] % 16));
        i += 1;
    }
    proof {
        assert(bytes@.take(i as int) =~= bytes@);
    }
    text
}

/// A character that is safe in a quoted file name, and an underscore for any
/// other.
pub open spec fn safe_char(c: char) -> char {
    if (c as u32) < 128 && c != '"' && c != '\\' {
        c
    } else {
        '_'
    }
}

/// Whether a byte stands for itself in an encoded file name.
pub open spec fn is_plain(b: u8) -> bool {
    (48 <= b <= 57) || (65 <= b <= 90) || (97 <= b <= 122) || b == 45 || b == 46 || b == 95 || b
        == 126
}

/// Bytes with every byte but the plain ones as a percent sign and two digits.
pub open spec fn percent_encoded(bytes: Seq<u8>) -> Seq<char>
    decreases bytes.len(),
{
    if bytes.len() == 0 {
        Seq::empty()
    } else {
        let before = percent_encoded(bytes.drop_last());
        let b = bytes.last();
        if is_plain(b) {
            before.push(b as char)
        } else {
            before.push('%').push(hex_digit(b as int / 16)).push(hex_digit(b as int % 16))
        }
    }
}

fn push_encoded(text: &mut String, bytes: &[u8])
    ensures
        final(text)@ == old(text)@ + percent_encoded(bytes@),
{
    let mut i: usize = 0;
    let ghost start = text@;
    proof {
        assert(bytes@.take(0) =~= Seq::<u8>::empty());
        assert(start + percent_encoded(bytes@.take(0)) =~= start);
    }
    while i < bytes.len()
        invariant
            start == old(text)@,
            i <= bytes.len(),
            text@ == start + percent_encoded(bytes@.take(i as int)),
        decreases bytes.len() - i,
    {
        let ghost before = percent_encoded(bytes@.take(i as int));
        proof {
            assert(bytes@.take(i + 1).drop_last() =~= bytes@.take(i as int));
            assert(bytes@.take(i + 1).last() == bytes@[i as int]);
        }
        let b: u8 = bytes[i];
        if (48 <= b && b <= 57) || (65 <= b && b <= 90) || (97 <= b && b <= 122) || b == 45 || b
            == 46 || b == 95 || b == 126 {
            text.push(b as char);
        } else {
            text.push('%');
            text.push(hex_char(b / 16));
            text.push(hex_char(b % 16));
        }
        proof {
            assert(text@ =~= start + percent_encoded(bytes@.take(i + 1)));
        }
        i += 1;
    }
    proof {
        assert(bytes@.take(i as int) =~= bytes@);
    }
}

/// The value of a Content-Disposition header for a file name.
pub open spec fn disposition_text(name: &str) -> Seq<char> {
    "attachment; filename=\""@ + name@.map_values(|c: char| safe_char(c))
        + "\"; filename*=UTF-8''"@ + percent_encoded(name.spec_bytes())
}

/// Builds an `attachment` Content-Disposition with an ASCII-safe `filename` and
/// a `filename*` that carries the exact UTF-8 name.
pub fn content_disposition(name: &str) -> (value: String)
    ensures
        value@ == disposition_text(name),
{
    let chars: Vec<char> = chars_of(name);
    let mut value: String = String::new();
    push_text(&mut value, "attachment; filename=\"");
    let ghost head = value@;
    let ghost safe = name@.map_values(|c: char| safe_char(c));
    let mut i: usize = 0;
    proof {
        assert(head + safe.take(0) =~= head);
    }
    while i < chars.len()
        invariant
            chars@ == name@,
            safe == name@.map_values(|c: char| safe_char(c)),
            i <= chars.len(),
            value@ == head + safe.take(i as int),
        decreases chars.len() - i,
    {
        let c: char = chars[i];
        let kept: char = if (c as u32) < 128 && c != '"' && c != '\\' { c } else { '_' };
        value.push(kept);
        proof {
            assert(safe.take(i + 1) =~= safe.take(i as int).push(safe[i as int]));
            assert(value@ =~= head + safe.take(i + 1));
        }
        i += 1;
    }
    proof {
        assert(safe.take(i as int) =~= safe);
    }
    push_text(&mut value, "\"; filename*=UTF-8''");
    push_encoded(&mut value, name.as_bytes());
    proof {
        assert(value@ =~= disposition_text(name));
    }
    value
}

/// The head of a download: its status, its length, and the part of the file
/// that it is where it is not the whole.
#[derive(Debug, PartialEq, Eq)]
pub struct DownloadHead {
    pub status: u16,
    pub content_length: u64,
    pub content_range: Option<String>,
}

/// The head of a download of some bytes of a file.
pub fn download_head(start: u64, end: u64, size: u64) -> (head: DownloadHead)
    requires
        start <= end <= size,
        start < end || size == 0,
    ensures
        head.content_length == end - start,
        if start == 0 && end == size {
            head.status == 200 && head.content_range is None
        } else {
            &&& head.status == 206
            &&& head.content_range matches Some(range) && range@ == content_range_text(
                start,
                end,
                size,
            )
        },
{
    if start == 0 && end == size {
        DownloadHead { status: 200, content_length: end - start, content_range: None }
    } else {
        DownloadHead {
            status: 206,
            content_length: end - start,
            content_range: Some(content_range(start, end, size)),
        }
    }
}

/// The value of a Content-Range header.
pub open spec fn content_range_text(start: u64, end: u64, size: u64) -> Seq<char> {
    "bytes "@ + decimal(start as nat) + "-"@ + decimal((end - 1) as nat) + "/"@ + decimal(
        size as nat,
    )
}

/// Builds a Content-Range header for the bytes from `start` up to `end`.
pub fn content_range(start: u64, end: u64, size: u64) -> (value: String)
    requires
        start < end,
    ensures
        value@ == content_range_text(start, end, size),
{
    let mut value: String = String::new();
    push_text(&mut value, "bytes ");
    push_decimal(&mut value, start);
    push_text(&mut value, "-");
    push_decimal(&mut value, end - 1);
    push_text(&mut value, "/");
    push_decimal(&mut value, size);
    assert(value@ =~= content_range_text(start, end, size));
    value
}

/// The bytes of a file that a download serves, and its head.
#[derive(Debug, PartialEq, Eq)]
pub struct DownloadPlan {
    pub start: u64,
    pub end: u64,
    pub head: DownloadHead,
}

/// Plans the download of a file: the bytes that the range header asks for, all
/// of them without one, and the head that goes before them.
pub fn plan_download(range: Option<&str>, size: u64) -> (plan: Result<DownloadPlan, ApiError>)
    ensures
        match plan {
            Ok(p) => {
                &&& match range {
                    None => p.start == 0 && p.end == size,
                    Some(text) => requested_range(text@, size as int) == Some(
                        (p.start as int, p.end as int),
                    ),
                }
                &&& p.start <= p.end <= size
                &&& p.head.content_length == p.end - p.start
                &&& if p.start == 0 && p.end == size {
                    p.head.status == 200 && p.head.content_range is None
                } else {
                    &&& p.head.status == 206
                    &&& p.head.content_range matches Some(extent) && extent@
                        == content_range_text(p.start, p.end, size)
                }
            },
            Err(e) => {
                &&& range matches Some(text) && requested_range(text@, size as int) is None
                &&& e.status == 416
                &&& e.message@ == "invalid byte range for "@ + decimal(size as nat)
                    + "-byte file"@
                &&& e.content_range matches Some(extent) && extent@ == "bytes */"@ + decimal(
                    size as nat,
                )
            },
        },
{
    match parse_range(range, size) {
        Err(error) => Err(error),
        Ok(bytes) => {
            proof {
                if let Some(text) = range {
                    law_ranges_stay_within_the_file(text@, size as int);
                }
            }
            Ok(
                DownloadPlan {
                    start: bytes.start,
                    end: bytes.end,
                    head: download_head(bytes.start, bytes.end, size),
                },
            )
        },
    }
}

/// What has to be undone after the upload of a segment failed.
#[derive(Clone, Copy, Debug, PartialEq, Eq, Structural)]
pub struct Cleanup {
    pub delete_stored: bool,
    pub cancel_reservation: bool,
}

/// What happened in the upload of a segment.
#[derive(Debug, PartialEq, Eq)]
pub enum SegmentEvent {
    /// Its index was reserved.
    Reserved,
    /// Its index could not be reserved.
    NotReserved(ApiError),
    /// The upload of its body could not be started.
    NotStarted(String),
    /// Its body was stored.
    Stored,
    /// Its body was not stored; `None` stands for a failure of the storage, with
    /// its own text.
    NotStored(Option<UploadError>, String),
    /// It was attached to the file.
    Attached,
    /// It was stored and could not be attached to the file.
    NotAttached(ApiError),
}

/// What comes next in the upload of a segment.
#[derive(Debug, PartialEq, Eq)]
pub enum SegmentAction {
    Upload,
    Attach,
    /// Answer that the segment was created.
    Answer,
    /// Clean up, then answer with the error.
    Refuse { error: ApiError, cleanup: Cleanup },
}

/// Decides what comes next in the upload of a segment: it is reserved, then
/// stored, then attached, and a failure undoes what came before.
pub fn segment_step(event: SegmentEvent) -> (action: SegmentAction)
    ensures
        match event {
            SegmentEvent::Reserved => action is Upload,
            SegmentEvent::Stored => action is Attach,
            SegmentEvent::Attached => action is Answer,
            SegmentEvent::NotReserved(e) => action == (SegmentAction::Refuse {
                error: e,
                cleanup: Cleanup { delete_stored: false, cancel_reservation: false },
            }),
            SegmentEvent::NotStarted(text) => action matches SegmentAction::Refuse {
                error,
                cleanup,
            } && {
                &&& error.status == 500
                &&& error.message@ == text@
                &&& error.content_range is None
                &&& cleanup == (Cleanup { delete_stored: false, cancel_reservation: false })
            },
            SegmentEvent::NotStored(failure, text) => action matches SegmentAction::Refuse {
                error,
                cleanup,
            } && {
                &&& error.status == upload_status(failure)
                &&& error.message@ == text@
                &&& error.content_range is None
                &&& cleanup == (Cleanup { delete_stored: false, cancel_reservation: true })
            },
            SegmentEvent::NotAttached(e) => action == (SegmentAction::Refuse {
                error: e,
                cleanup: Cleanup { delete_stored: true, cancel_reservation: true },
            }),
        },
{
    match event {
        SegmentEvent::Reserved => SegmentAction::Upload,
        SegmentEvent::Stored => SegmentAction::Attach,
        SegmentEvent::Attached => SegmentAction::Answer,
        SegmentEvent::NotReserved(error) => SegmentAction::Refuse {
            error,
            cleanup: Cleanup { delete_stored: false, cancel_reservation: false },
        },
        SegmentEvent::NotStarted(text) => SegmentAction::Refuse {
            error: ApiError::internal(text.as_str()),
            cleanup: Cleanup { delete_stored: false, cancel_reservation: false },
        },
        SegmentEvent::NotStored(failure, text) => SegmentAction::Refuse {
            error: ApiError::upload(failure, text.as_str()),
            cleanup: Cleanup { delete_stored: false, cancel_reservation: true },
        },
        SegmentEvent::NotAttached(error) => SegmentAction::Refuse {
            error,
            cleanup: Cleanup { delete_stored: true, cancel_reservation: true },
        },
    }
}

/// The status promise of uploads: a body that is too large is refused as that, one
/// that is empty or not as long as announced is the client's fault, and all else
/// that of the storage.
pub proof fn law_uploads_fail_with_their_status(max_bytes: u64, expected: u64, actual: u64)
    ensures
        upload_status(Some(UploadError::TooLarge { max_bytes })) == 413,
        upload_status(Some(UploadError::LengthMismatch { expected, actual })) == 400,
        upload_status(Some(UploadError::Empty)) == 400,
        upload_status(Some(UploadError::Incomplete)) == 502,
        upload_status(None) == 502,
{
}

/// An unknown file is not found, and whatever else the catalog refuses is a
/// conflict.
pub proof fn law_catalogs_refuse_with_their_status(error: CatalogError)
    ensures
        catalog_status(error) == 404 <==> error == CatalogError::NotFound,
        catalog_status(error) == 404 || catalog_status(error) == 409,
{
}

proof fn lemma_no_mark_in_digits(n: nat, c: char)
    requires
        !('0' <= c <= '9'),
    ensures
        !decimal(n).contains(c),
{
    law_decimals_read_back(n, n as int);
    if decimal(n).contains(c) {
        let i = choose|i: int| 0 <= i < decimal(n).len() && decimal(n)[i] == c;
        assert('0' <= decimal(n)[i] <= '9');
    }
}

proof fn lemma_header_of(start: Seq<char>, end: Seq<char>, size: int)
    requires
        !start.contains(',') && !start.contains('-'),
        !end.contains(','),
    ensures
        requested_range("bytes="@ + (start.push('-') + end), size) == range_between(
            start,
            end,
            size,
        ),
{
    let prefix = "bytes="@;
    let rest = start.push('-') + end;
    let value = prefix + rest;
    assert(value.take(prefix.len() as int) =~= prefix);
    assert(value.skip(prefix.len() as int) =~= rest);
    assert(!rest.contains(',')) by {
        if rest.contains(',') {
            let i = choose|i: int| 0 <= i < rest.len() && rest[i] == ',';
            if i < start.len() {
                assert(start[i] == ',');
            } else {
                assert(end[i - start.len() - 1] == ',');
            }
        }
    }
    let dash = start.len() as int;
    assert(rest[dash] == '-');
    assert(rest.contains('-'));
    assert(rest.take(dash) =~= start);
    lemma_first_index(rest, '-', dash);
    assert(rest.skip(dash + 1) =~= end);
}

/// The range promise: a header that names a first and a last byte asks for exactly
/// these bytes, as far as the file has them. It is refused where the file has none
/// of them, or where the last one comes before the first.
pub proof fn law_ranges_name_their_bytes(first: u64, last: u64, size: int)
    requires
        0 <= size <= u64::MAX,
    ensures
        ({
            let value = "bytes="@ + (decimal(first as nat).push('-') + decimal(last as nat));
            match requested_range(value, size) {
                Some((start, end)) => {
                    &&& start == first
                    &&& end == if last < size {
                        last + 1
                    } else {
                        size
                    }
                    &&& first <= last && first < size
                },
                None => first >= size || last < first,
            }
        }),
{
    lemma_no_mark_in_digits(first as nat, ',');
    lemma_no_mark_in_digits(first as nat, '-');
    lemma_no_mark_in_digits(last as nat, ',');
    lemma_header_of(decimal(first as nat), decimal(last as nat), size);
    law_decimals_read_back(first as nat, u64::MAX as int);
    law_decimals_read_back(last as nat, u64::MAX as int);
}

/// A header that names only a first byte asks for all from there on, and one that
/// counts the last bytes for so many, or all that there are.
pub proof fn law_open_ranges_reach_the_end(first: u64, count: u64, size: int)
    requires
        0 <= size <= u64::MAX,
    ensures
        requested_range("bytes="@ + decimal(first as nat).push('-'), size) == if first < size {
            Some((first as int, size))
        } else {
            None
        },
        requested_range("bytes="@ + (seq!['-'] + decimal(count as nat)), size) == if count == 0
            || size == 0 {
            None
        } else if count <= size {
            Some((size - count, size))
        } else {
            Some((0, size))
        },
{
    let none = Seq::<char>::empty();
    lemma_no_mark_in_digits(first as nat, ',');
    lemma_no_mark_in_digits(first as nat, '-');
    lemma_no_mark_in_digits(count as nat, ',');
    lemma_header_of(decimal(first as nat), none, size);
    assert(decimal(first as nat).push('-') + none =~= decimal(first as nat).push('-'));
    lemma_header_of(none, decimal(count as nat), size);
    assert(none.push('-') + decimal(count as nat) =~= seq!['-'] + decimal(count as nat));
    law_decimals_read_back(first as nat, u64::MAX as int);
    law_decimals_read_back(count as nat, u64::MAX as int);
}

/// A header is refused that is not in bytes, names several ranges, or names none;
/// and so is one whose ends are no numbers.
pub proof fn law_other_ranges_are_refused(value: Seq<char>, start: Seq<char>, end: Seq<char>, size: int)
    ensures
        !starts_with(value, "bytes="@) ==> requested_range(value, size) is None,
        value.skip("bytes="@.len() as int).contains(',') ==> requested_range(value, size) is None,
        !value.skip("bytes="@.len() as int).contains('-') ==> requested_range(value, size) is None,
        !start.contains(',') && !start.contains('-') && !end.contains(',') && start.len() > 0
            && parsed(start, 10, u64::MAX as int) is None ==> requested_range(
            "bytes="@ + (start.push('-') + end),
            size,
        ) is None,
        !start.contains(',') && !start.contains('-') && !end.contains(',') && end.len() > 0
            && parsed(end, 10, u64::MAX as int) is None ==> requested_range(
            "bytes="@ + (start.push('-') + end),
            size,
        ) is None,
        requested_range("bytes=-"@, size) is None,
{
    if !start.contains(',') && !start.contains('-') && !end.contains(',') {
        lemma_header_of(start, end, size);
    }
    let none = Seq::<char>::empty();
    lemma_header_of(none, none, size);
    reveal_strlit("bytes=");
    reveal_strlit("bytes=-");
    assert("bytes="@ + (none.push('-') + none) =~= "bytes=-"@);
}

/// The bytes that an encoded text stands for: two digits behind a percent sign
/// write one, and any other character is one.
pub open spec fn percent_decoded(text: Seq<char>) -> Seq<u8>
    decreases text.len(),
{
    if text.len() == 0 {
        Seq::empty()
    } else if text[0] == '%' && text.len() >= 3 {
        seq![(digit_value(text[1])->0 * 16 + digit_value(text[2])->0) as u8] + percent_decoded(
            text.skip(3),
        )
    } else {
        seq![text[0] as u8] + percent_decoded(text.skip(1))
    }
}

proof fn lemma_encoded_first(bytes: Seq<u8>)
    requires
        bytes.len() > 0,
    ensures
        percent_encoded(bytes) == percent_encoded(seq![bytes[0]]) + percent_encoded(bytes.skip(1)),
    decreases bytes.len(),
{
    let one = seq![bytes[0]];
    let rest = bytes.skip(1);
    if bytes.len() == 1 {
        assert(bytes =~= one);
        assert(rest =~= Seq::<u8>::empty());
        assert(percent_encoded(bytes) =~= percent_encoded(one) + percent_encoded(rest));
    } else {
        lemma_encoded_first(bytes.drop_last());
        assert(bytes.drop_last().skip(1) =~= rest.drop_last());
        assert(bytes.last() == rest.last());
        assert(percent_encoded(bytes) =~= percent_encoded(one) + percent_encoded(rest));
    }
}

/// The name promise: an encoded name stands for exactly its bytes, and is made of
/// letters, digits, `-`, `.`, `_`, `~` and percent signs only.
pub proof fn law_encoded_names_read_back(bytes: Seq<u8>)
    ensures
        percent_decoded(percent_encoded(bytes)) == bytes,
        forall|i: int|
            0 <= i < percent_encoded(bytes).len() ==> is_url_char(
                #[trigger] percent_encoded(bytes)[i],
            ),
    decreases bytes.len(),
{
    let text = percent_encoded(bytes);
    if bytes.len() == 0 {
        assert(percent_decoded(text) =~= bytes);
    } else {
        let b = bytes[0];
        let one = seq![b];
        let rest = bytes.skip(1);
        lemma_encoded_first(bytes);
        law_encoded_names_read_back(rest);
        assert(one.drop_last() =~= Seq::<u8>::empty());
        assert(percent_encoded(one.drop_last()) =~= Seq::<char>::empty());
        let head = percent_encoded(one);
        if is_plain(b) {
            assert(head =~= seq![b as char]);
            assert(text.skip(1) =~= percent_encoded(rest));
            assert(text[0] == b as char);
        } else {
            assert(head =~= seq!['%', hex_digit(b as int / 16), hex_digit(b as int % 16)]);
            assert(text.skip(3) =~= percent_encoded(rest));
            assert(text[0] == '%');
            assert(text[1] == hex_digit(b as int / 16));
            assert(text[2] == hex_digit(b as int % 16));
        }
        assert(percent_decoded(text) =~= one + percent_decoded(percent_encoded(rest)));
        assert(one + rest =~= bytes);
        assert forall|i: int| 0 <= i < text.len() implies is_url_char(#[trigger] text[i]) by {
            if i < head.len() {
                assert(text[i] == head[i]);
            } else {
                assert(text[i] == percent_encoded(rest)[i - head.len()]);
            }
        }
    }
}

/// Whether the character may stand in an encoded name.
pub open spec fn is_url_char(c: char) -> bool {
    ||| '0' <= c <= '9'
    ||| 'a' <= c <= 'z'
    ||| 'A' <= c <= 'Z'
    ||| c == '-' || c == '.' || c == '_' || c == '~' || c == '%'
}

/// The characters that stand for themselves in an encoded name are letters,
/// digits, `-`, `.`, `_` and `~`; they are not encoded.
pub proof fn law_plain_characters_stay(b: u8)
    ensures
        is_url_char(b as char) && b != 37 ==> percent_encoded(seq![b]) == seq![b as char],
        !is_url_char(b as char) || b == 37 ==> percent_encoded(seq![b]).len() == 3
            && percent_encoded(seq![b])[0] == '%',
{
    let one = seq![b];
    assert(one.drop_last() =~= Seq::<u8>::empty());
    assert(percent_encoded(one.drop_last()) =~= Seq::<char>::empty());
    if is_plain(b) {
        assert(percent_encoded(one) =~= seq![b as char]);
    }
}

/// The disposition promise: a file is an attachment. Its quoted name is as long as
/// the name and has its ASCII characters but for quotes and backslashes, and
/// underscores elsewhere; the encoded one behind it stands for the exact name.
pub proof fn law_dispositions_carry_the_name(name: &str)
    ensures
        ({
            let text = disposition_text(name);
            let head = "attachment; filename=\""@;
            let middle = "\"; filename*=UTF-8''"@;
            let quoted = text.subrange(head.len() as int, (head.len() + name@.len()) as int);
            let coded = text.skip((head.len() + name@.len() + middle.len()) as int);
            &&& text == head + quoted + middle + coded
            &&& forall|i: int|
                0 <= i < name@.len() ==> #[trigger] quoted[i] == if (name@[i] as u32) < 128
                    && name@[i] != '"' && name@[i] != '\\' {
                    name@[i]
                } else {
                    '_'
                }
            &&& percent_decoded(coded) == name.spec_bytes()
        }),
{
    let text = disposition_text(name);
    let head = "attachment; filename=\""@;
    let middle = "\"; filename*=UTF-8''"@;
    let safe = name@.map_values(|c: char| safe_char(c));
    let coded = percent_encoded(name.spec_bytes());
    assert(text.subrange(head.len() as int, (head.len() + name@.len()) as int) =~= safe);
    assert(text.skip((head.len() + name@.len() + middle.len()) as int) =~= coded);
    law_encoded_names_read_back(name.spec_bytes());
}

/// The extent promise: a Content-Range names the first and the last byte that are
/// served, and the size of the file.
pub proof fn law_extents_name_first_and_last(start: u64, end: u64, size: u64)
    requires
        start < end,
    ensures
        content_range_text(start, end, size) == "bytes "@ + (decimal(start as nat).push('-') + (
        decimal((end - 1) as nat).push('/') + decimal(size as nat))),
{
    reveal_strlit("-");
    reveal_strlit("/");
    assert(content_range_text(start, end, size) =~= "bytes "@ + (decimal(start as nat).push('-')
        + (decimal((end - 1) as nat).push('/') + decimal(size as nat))));
}

} // verus!
