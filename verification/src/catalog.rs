//! The rules of the file catalog: when a segment may be reserved and attached,
//! when a file may be completed, and what is read back of it.
//!
//! The caller reads and writes the rows; these functions decide on them.
use vstd::prelude::*;

use crate::request::{DecryptKey, ObjectId, ObjectMeta};
use crate::stream::{SignedUrl, SignedUrlView};
use crate::sums::{lemma_total_prefix, lemma_total_take, total};
use crate::text::{chars_of, find_text, occurs_at};

verus! {

/// Connections to a database file.
pub const FILE_CONNECTIONS: u32 = 4;

/// How a database is opened.
#[derive(Clone, Copy, Debug, PartialEq, Eq, Structural)]
pub struct PoolSettings {
    pub write_ahead_log: bool,
    pub max_connections: u32,
}

/// Whether the URL names a database that lives in memory.
pub open spec fn in_memory(url: Seq<char>) -> bool {
    exists|i: int| occurs_at(url, ":memory:"@, i)
}

/// How the database is opened that a URL names. One in memory has a single
/// connection, since each has a database of its own, and no log.
pub fn pool_settings(url: &str) -> (settings: PoolSettings)
    ensures
        settings.write_ahead_log == !in_memory(url@),
        settings.max_connections == if in_memory(url@) {
            1
        } else {
            FILE_CONNECTIONS
        },
{
    let chars: Vec<char> = chars_of(url);
    match find_text(chars.as_slice(), ":memory:") {
        Some(_) => PoolSettings { write_ahead_log: false, max_connections: 1 },
        None => PoolSettings { write_ahead_log: true, max_connections: FILE_CONNECTIONS },
    }
}

#[derive(Clone, Copy, Debug, PartialEq, Eq, Structural)]
pub enum CatalogError {
    NotFound,
    Completed,
    IndexExists,
    AllocationExceeded,
    UploadInProgress,
    SegmentGap,
    MisalignedSegment,
    NotCompleted,
    InvalidKey,
    InvalidFrameCount,
}

impl CatalogError {
    pub open spec fn text(self) -> Seq<char> {
        match self {
            CatalogError::NotFound => "file not found"@,
            CatalogError::Completed => "file is already completed"@,
            CatalogError::IndexExists => "segment index already exists"@,
            CatalogError::AllocationExceeded => "file allocation exceeded"@,
            CatalogError::UploadInProgress => "a segment upload is still in progress"@,
            CatalogError::SegmentGap => "segment indices are not continuous"@,
            CatalogError::MisalignedSegment => "a non-final segment is not frame-aligned"@,
            CatalogError::NotCompleted => "file is not completed"@,
            CatalogError::InvalidKey => "stored segment key is invalid"@,
            CatalogError::InvalidFrameCount => "stored frame count is invalid"@,
        }
    }

    pub fn message(&self) -> (text: &'static str)
        ensures
            text@ == self.text(),
    {
        match self {
            CatalogError::NotFound => "file not found",
            CatalogError::Completed => "file is already completed",
            CatalogError::IndexExists => "segment index already exists",
            CatalogError::AllocationExceeded => "file allocation exceeded",
            CatalogError::UploadInProgress => "a segment upload is still in progress",
            CatalogError::SegmentGap => "segment indices are not continuous",
            CatalogError::MisalignedSegment => "a non-final segment is not frame-aligned",
            CatalogError::NotCompleted => "file is not completed",
            CatalogError::InvalidKey => "stored segment key is invalid",
            CatalogError::InvalidFrameCount => "stored frame count is invalid",
        }
    }
}

/// What the catalog holds of a file.
#[derive(Clone, Copy, Debug, PartialEq, Eq, Structural)]
pub struct FileRow {
    pub expected_size: i64,
    pub size: Option<i64>,
    pub completed_at: Option<i64>,
}

/// A segment attached to a file.
#[derive(Clone, Copy, Debug, PartialEq, Eq, Structural)]
pub struct SegmentRow {
    pub index: i64,
    pub size: i64,
}

/// Checks that a file is known and still open.
pub fn open_file(file: Option<FileRow>) -> (row: Result<FileRow, CatalogError>)
    ensures
        match row {
            Ok(r) => file == Some(r) && r.completed_at is None,
            Err(e) => match file {
                None => e == CatalogError::NotFound,
                Some(f) => f.completed_at is Some && e == CatalogError::Completed,
            },
        },
{
    match file {
        None => Err(CatalogError::NotFound),
        Some(row) => {
            if row.completed_at.is_some() {
                Err(CatalogError::Completed)
            } else {
                Ok(row)
            }
        },
    }
}

/// Decides on the reservation of a segment index, given how many rows its
/// insertion added.
pub fn reserve_segment(file: Option<FileRow>, inserted: u64) -> (reserved: Result<(), CatalogError>)
    ensures
        match reserved {
            Ok(_) => file matches Some(f) && f.completed_at is None && inserted != 0,
            Err(e) => match file {
                None => e == CatalogError::NotFound,
                Some(f) => if f.completed_at is Some {
                    e == CatalogError::Completed
                } else {
                    inserted == 0 && e == CatalogError::IndexExists
                },
            },
        },
{
    match open_file(file) {
        Err(error) => Err(error),
        Ok(_) => {
            if inserted == 0 {
                Err(CatalogError::IndexExists)
            } else {
                Ok(())
            }
        },
    }
}

/// Decides whether a stored segment fits into the file: `used` bytes are
/// attached already.
pub fn attach_segment(file: Option<FileRow>, used: i64, plaintext_size: u64) -> (attached: Result<
    (),
    CatalogError,
>)
    ensures
        match attached {
            Ok(_) => file matches Some(f) && f.completed_at is None && used + plaintext_size
                <= f.expected_size,
            Err(e) => match file {
                None => e == CatalogError::NotFound,
                Some(f) => if f.completed_at is Some {
                    e == CatalogError::Completed
                } else {
                    &&& used + plaintext_size > f.expected_size
                    &&& e == CatalogError::AllocationExceeded
                },
            },
        },
{
    match open_file(file) {
        Err(error) => Err(error),
        Ok(row) => {
            if used as i128 + plaintext_size as i128 > row.expected_size as i128 {
                Err(CatalogError::AllocationExceeded)
            } else {
                Ok(())
            }
        },
    }
}

/// Decides whether the segment took the reserved index, given how many rows the
/// update changed.
pub fn confirm_attached(updated: u64) -> (confirmed: Result<(), CatalogError>)
    ensures
        match confirmed {
            Ok(_) => updated == 1,
            Err(e) => updated != 1 && e == CatalogError::IndexExists,
        },
{
    if updated != 1 {
        Err(CatalogError::IndexExists)
    } else {
        Ok(())
    }
}

pub open spec fn sizes_of(rows: Seq<SegmentRow>) -> Seq<int> {
    rows.map_values(|r: SegmentRow| r.size as int)
}

/// Whether a size is whole frames. Nothing but an empty segment is whole frames
/// of no payload.
pub open spec fn aligned(size: int, payload_size: int) -> bool {
    if payload_size == 0 {
        size == 0
    } else {
        size % payload_size == 0
    }
}

/// What is wrong with segment `i` of a file, in order of its rows: a gap before
/// it, or a size that is not whole frames though another segment follows.
pub open spec fn row_error(rows: Seq<SegmentRow>, payload_size: int, i: int) -> Option<CatalogError> {
    if rows[i].index != i {
        Some(CatalogError::SegmentGap)
    } else if i + 1 < rows.len() && !aligned(rows[i].size as int, payload_size) {
        Some(CatalogError::MisalignedSegment)
    } else {
        None
    }
}

/// Whether row `i` is the first with an error.
pub open spec fn is_first_bad_row(rows: Seq<SegmentRow>, payload_size: int, i: int) -> bool {
    &&& 0 <= i < rows.len()
    &&& row_error(rows, payload_size, i) is Some
    &&& forall|k: int| 0 <= k < i ==> #[trigger] row_error(rows, payload_size, k) is None
}

/// Whether the segments of a file can be read as one: numbered without a gap,
/// and all but the last whole frames.
pub open spec fn rows_complete(rows: Seq<SegmentRow>, payload_size: int) -> bool {
    forall|i: int|
        0 <= i < rows.len() ==> #[trigger] row_error(rows, payload_size, i) is None
}

/// Decides whether a file is complete and how large it is. `pending` segments
/// are still being uploaded; the rows come in the order of their indices.
pub fn complete_file(
    file: Option<FileRow>,
    pending: i64,
    rows: &Vec<SegmentRow>,
    payload_size: usize,
) -> (completed: Result<u64, CatalogError>)
    requires
        forall|i: int| 0 <= i < rows@.len() ==> (#[trigger] rows@[i]).size >= 0,
        total(sizes_of(rows@)) <= u64::MAX,
        file matches Some(f) ==> f.expected_size >= 0,
    ensures
        match completed {
            Ok(size) => {
                &&& file matches Some(f) && f.completed_at is None && size <= f.expected_size
                &&& pending == 0
                &&& rows_complete(rows@, payload_size as int)
                &&& forall|i: int| 0 <= i < rows@.len() ==> (#[trigger] rows@[i]).index == i
                &&& size == total(sizes_of(rows@))
            },
            Err(e) => match file {
                None => e == CatalogError::NotFound,
                Some(f) => if f.completed_at is Some {
                    e == CatalogError::Completed
                } else if pending != 0 {
                    e == CatalogError::UploadInProgress
                } else if rows_complete(rows@, payload_size as int) {
                    &&& total(sizes_of(rows@)) > f.expected_size
                    &&& e == CatalogError::AllocationExceeded
                } else {
                    exists|i: int| #[trigger]
                        is_first_bad_row(rows@, payload_size as int, i) && row_error(
                            rows@,
                            payload_size as int,
                            i,
                        ) == Some(e)
                },
            },
        },
{
    let row: FileRow = match open_file(file) {
        Ok(row) => row,
        Err(error) => {
            return Err(error);
        },
    };
    if pending != 0 {
        return Err(CatalogError::UploadInProgress);
    }
    let ghost sizes = sizes_of(rows@);
    let mut size: u64 = 0;
    let mut i: usize = 0;
    while i < rows.len()
        invariant
            file == Some(row),
            row.completed_at is None,
            pending == 0,
            sizes == sizes_of(rows@),
            total(sizes) <= u64::MAX,
            forall|k: int| 0 <= k < rows@.len() ==> (#[trigger] rows@[k]).size >= 0,
            i <= rows.len(),
            size == total(sizes.take(i as int)),
            forall|k: int|
                0 <= k < i ==> #[trigger] row_error(rows@, payload_size as int, k) is None,
            forall|k: int| 0 <= k < i ==> (#[trigger] rows@[k]).index == k,
        decreases rows.len() - i,
    {
        let segment: SegmentRow = rows[i];
        proof {
            lemma_total_take(sizes, i as int);
            assert forall|k: int| 0 <= k < sizes.len() implies 0 <= #[trigger] sizes[k] by {
                assert(rows@[k].size >= 0);
            }
            lemma_total_prefix(sizes, i + 1);
        }
        if segment.index < 0 || segment.index as u64 != i as u64 {
            assert(is_first_bad_row(rows@, payload_size as int, i as int));
            return Err(CatalogError::SegmentGap);
        }
        if i + 1 < rows.len() {
            let whole: bool = if payload_size == 0 {
                segment.size == 0
            } else {
                segment.size as u64 % payload_size as u64 == 0
            };
            if !whole {
                assert(is_first_bad_row(rows@, payload_size as int, i as int));
                return Err(CatalogError::MisalignedSegment);
            }
        }
        size = size + segment.size as u64;
        i += 1;
    }
    proof {
        assert(sizes.take(i as int) =~= sizes);
    }
    if size > row.expected_size as u64 {
        return Err(CatalogError::AllocationExceeded);
    }
    Ok(size)
}

/// The completeness promise: a file is complete exactly if its rows are numbered
/// from zero on without a gap, and every row that another one follows holds whole
/// frames.
pub proof fn law_complete_files_have_no_gap(rows: Seq<SegmentRow>, payload_size: int)
    ensures
        rows_complete(rows, payload_size) <==> {
            &&& forall|i: int| 0 <= i < rows.len() ==> (#[trigger] rows[i]).index == i
            &&& forall|i: int|
                0 <= i < rows.len() - 1 ==> if payload_size == 0 {
                    (#[trigger] rows[i]).size == 0
                } else {
                    rows[i].size as int % payload_size == 0
                }
        },
{
    if rows_complete(rows, payload_size) {
        assert forall|i: int| 0 <= i < rows.len() implies (#[trigger] rows[i]).index == i by {
            assert(row_error(rows, payload_size, i) is None);
        }
        assert forall|i: int| 0 <= i < rows.len() - 1 implies if payload_size == 0 {
            (#[trigger] rows[i]).size == 0
        } else {
            rows[i].size as int % payload_size == 0
        } by {
            assert(row_error(rows, payload_size, i) is None);
        }
    } else {
        let i = choose|i: int|
            0 <= i < rows.len() && !(#[trigger] row_error(rows, payload_size, i) is None);
        assert(rows[i].index != i || i < rows.len() - 1);
    }
}

/// A file is refused for its first row that is wrong: for a gap exactly if the
/// row has not the number of its place, and otherwise because another row follows
/// it and it is not whole frames.
pub proof fn law_refusals_name_the_first_fault(rows: Seq<SegmentRow>, payload_size: int, i: int)
    requires
        is_first_bad_row(rows, payload_size, i),
    ensures
        0 <= i < rows.len(),
        forall|k: int| 0 <= k < i ==> (#[trigger] rows[k]).index == k,
        forall|k: int|
            0 <= k < i ==> if payload_size == 0 {
                (#[trigger] rows[k]).size == 0
            } else {
                rows[k].size as int % payload_size == 0
            },
        row_error(rows, payload_size, i) == Some(
            if rows[i].index != i {
                CatalogError::SegmentGap
            } else {
                CatalogError::MisalignedSegment
            },
        ),
        rows[i].index == i ==> {
            &&& i < rows.len() - 1
            &&& if payload_size == 0 {
                rows[i].size != 0
            } else {
                rows[i].size as int % payload_size != 0
            }
        },
{
    assert forall|k: int| 0 <= k < i implies (#[trigger] rows[k]).index == k by {
        assert(row_error(rows, payload_size, k) is None);
    }
    assert forall|k: int| 0 <= k < i implies if payload_size == 0 {
        (#[trigger] rows[k]).size == 0
    } else {
        rows[k].size as int % payload_size == 0
    } by {
        assert(row_error(rows, payload_size, k) is None);
    }
}

/// Frames of the first `n` segments of a file.
pub open spec fn frames_of(rows: Seq<SegmentRow>, payload_size: int) -> Seq<int> {
    rows.map_values(|r: SegmentRow| crate::byte::ceil_div(r.size as int, payload_size))
}

/// The alignment promise: in a complete file every segment starts where its
/// frames say it does, so that byte ranges of the file map to frames.
pub proof fn law_complete_files_are_frame_aligned(
    rows: Seq<SegmentRow>,
    payload_size: int,
    n: int,
)
    requires
        payload_size > 0,
        rows_complete(rows, payload_size),
        0 <= n < rows.len(),
    ensures
        total(sizes_of(rows).take(n)) == total(frames_of(rows, payload_size).take(n))
            * payload_size,
    decreases n,
{
    if n > 0 {
        law_complete_files_are_frame_aligned(rows, payload_size, n - 1);
        lemma_total_take(sizes_of(rows), n - 1);
        lemma_total_take(frames_of(rows, payload_size), n - 1);
        assert(row_error(rows, payload_size, n - 1) is None);
        let size = rows[n - 1].size as int;
        vstd::arithmetic::div_mod::lemma_fundamental_div_mod(size, payload_size);
        let before = total(frames_of(rows, payload_size).take(n - 1));
        let frames = size / payload_size;
        assert((before + frames) * payload_size == before * payload_size + payload_size * frames)
            by (nonlinear_arith);
    } else {
        assert(sizes_of(rows).take(0) =~= Seq::<int>::empty());
        assert(frames_of(rows, payload_size).take(0) =~= Seq::<int>::empty());
    }
}

/// The size of a completed file.
pub fn completed_size(file: Option<FileRow>) -> (size: Result<u64, CatalogError>)
    requires
        file matches Some(f) ==> (f.size matches Some(s) ==> s >= 0),
    ensures
        match size {
            Ok(s) => file matches Some(f) && f.size == Some(s as i64) && f.completed_at is Some,
            Err(e) => match file {
                None => e == CatalogError::NotFound,
                Some(f) => {
                    &&& f.size is None || f.completed_at is None
                    &&& e == CatalogError::NotCompleted
                },
            },
        },
{
    match file {
        None => Err(CatalogError::NotFound),
        Some(row) => match row.size {
            None => Err(CatalogError::NotCompleted),
            Some(size) => {
                if row.completed_at.is_none() {
                    Err(CatalogError::NotCompleted)
                } else {
                    Ok(size as u64)
                }
            },
        },
    }
}

/// The first 32 bytes as an array.
pub(crate) fn key_array(bytes: &Vec<u8>) -> (key: [u8; 32])
    requires
        bytes@.len() == 32,
    ensures
        key@ == bytes@,
{
    let mut key: [u8; 32] = [0;32];
    let mut i: usize = 0;
    while i < 32
        invariant
            i <= 32,
            bytes@.len() == 32,
            key@.len() == 32,
            forall|k: int| 0 <= k < i ==> key@[k] == bytes@[k],
        decreases 32 - i,
    {
        key[i] = bytes[i];
        i += 1;
    }
    assert(key@ =~= bytes@);
    key
}

/// Rebuilds an object from what the catalog holds of it.
pub fn stored_object(id: &str, uri: String, frame_count: i64, key: &Vec<u8>) -> (object: Result<
    ObjectMeta,
    CatalogError,
>)
    ensures
        match object {
            Ok(o) => {
                &&& key@.len() == 32
                &&& 0 <= frame_count <= u32::MAX
                &&& o.id@ == id@
                &&& o.uri == uri
                &&& o.frame_count == frame_count
                &&& o.decrypt_key@ == key@
            },
            Err(e) => if key@.len() != 32 {
                e == CatalogError::InvalidKey
            } else {
                !(0 <= frame_count <= u32::MAX) && e == CatalogError::InvalidFrameCount
            },
        },
{
    if key.len() != 32 {
        return Err(CatalogError::InvalidKey);
    }
    if frame_count < 0 || frame_count > u32::MAX as i64 {
        return Err(CatalogError::InvalidFrameCount);
    }
    Ok(
        ObjectMeta {
            id: ObjectId::new(id),
            uri,
            frame_count: frame_count as u32,
            decrypt_key: DecryptKey::new(key_array(key)),
        },
    )
}

/// A cached URL has to stay valid for this many seconds to be used.
pub const URL_MARGIN: u64 = 300;

/// The time after which a cached URL has to expire to be used.
pub fn valid_after(now: u64) -> (seconds: i64)
    requires
        now <= i64::MAX,
    ensures
        seconds == if now + URL_MARGIN <= i64::MAX {
            now + URL_MARGIN
        } else {
            i64::MAX as int
        },
{
    if now <= i64::MAX as u64 - URL_MARGIN {
        (now + URL_MARGIN) as i64
    } else {
        i64::MAX
    }
}

/// A cached URL that may be used: one with an expiry after `valid_after`.
pub fn cached_url(url: Option<String>, expires: Option<i64>, valid_after: i64) -> (usable: Option<
    SignedUrl,
>)
    requires
        valid_after >= 0,
    ensures
        match usable {
            Some(u) => {
                &&& url matches Some(text) && expires matches Some(time) && time > valid_after
                    && u@ == (SignedUrlView { value: text@, expires_at: Some(time as u64) })
            },
            None => {
                ||| url is None
                ||| expires is None
                ||| expires matches Some(time) && time <= valid_after
            },
        },
{
    match (url, expires) {
        (Some(text), Some(time)) => {
            if time > valid_after {
                Some(SignedUrl::new(text.as_str(), Some(time as u64)))
            } else {
                None
            }
        },
        _ => None,
    }
}

/// A URL names a database in memory exactly when it holds the word for it, letter by
/// letter.
pub proof fn law_memory_is_named(before: Seq<char>, after: Seq<char>, url: Seq<char>)
    ensures
        in_memory(before + ":memory:"@ + after),
        in_memory(url) ==> exists|i: int|
            #![trigger url.skip(i)]
            0 <= i <= url.len() - 8 && url.skip(i).take(8) == ":memory:"@,
{
    reveal_strlit(":memory:");
    let whole = before + ":memory:"@ + after;
    let at = before.len() as int;
    assert(whole.subrange(at, at + 8) =~= ":memory:"@);
    assert(occurs_at(whole, ":memory:"@, at));
    if in_memory(url) {
        let i = choose|i: int| occurs_at(url, ":memory:"@, i);
        assert(url.skip(i).take(8) =~= ":memory:"@);
    }
}

/// The limits of the catalog: four connections to a file, and five minutes that a URL
/// has to last.
pub proof fn law_limits_of_the_catalog()
    ensures
        FILE_CONNECTIONS == 4,
        URL_MARGIN == 5 * 60,
{
}

} // verus!
