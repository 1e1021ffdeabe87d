use bytes::Bytes;
use frame_store::http::hex;
use frame_store::s3::{
    body_etag, check_part_number, check_part_size, check_range, check_upload, complete_multipart,
    copied_headers, create_allowed, delete_allowed, empty_digest, escape_like, garbage_cutoff,
    judge_md5, list_page, multipart_etag, page_size, page_start, partial_range, plan_read, prefix_pattern,
    read_allowed, reported_keys, requested_parts, segment_capacity, segment_from_row,
    segment_ranges, select_parts, timestamp, unhex, verify_md5, write_allowed, BodySegmenter,
    ObjectHeaders, ObjectRead, ObjectSummary, PartRecord, RequestedPart, RequestedRange, S3Code,
    SegmentColumns, SegmentRange,
};

const BODY: &[u8] = b"abcdefghijklmnopqrstuvwxyz012345678";

fn segments(body: &[u8], segment_size: usize, chunk: usize) -> (Vec<Bytes>, u64, [u8; 16]) {
    let mut segmenter = match BodySegmenter::new(segment_size, 1024) {
        Ok(segmenter) => segmenter,
        Err(error) => panic!("{error:?}"),
    };
    let mut segments = Vec::new();
    for chunk in body.chunks(chunk) {
        segments.extend(segmenter.push(&Bytes::copy_from_slice(chunk)).unwrap());
    }
    let end = segmenter.finish();
    segments.extend(end.last);
    (segments, end.size, end.digest)
}

fn headers(content_type: &str, mtime: &str) -> ObjectHeaders {
    ObjectHeaders {
        content_type: Some(content_type.to_owned()),
        content_encoding: None,
        cache_control: None,
        content_disposition: None,
        content_language: None,
        metadata: vec![("mtime".to_owned(), mtime.to_owned())],
    }
}

#[test]
fn stores_metadata_and_reads_a_range_across_unaligned_segments() {
    let (segments, size, digest) = segments(BODY, 16, 35);
    assert_eq!(segments.len(), 3);
    assert_eq!(size, 35);
    assert_eq!(hex(&digest), "8aec8672f465ae1503f90428479ace5a");

    let asked = RequestedRange::Int {
        first: 7,
        last: Some(24),
    };
    let range = check_range(Some(asked), size).unwrap();
    assert_eq!(range, 7..25);
    let sizes: Vec<u64> = segments.iter().map(|segment| segment.len() as u64).collect();
    let mut actual = Vec::new();
    for part in segment_ranges(&sizes, range) {
        actual.extend_from_slice(&segments[part.index][part.start as usize..part.end as usize]);
    }
    assert_eq!(actual, &BODY[7..25]);

    assert_eq!(
        copied_headers(None, headers("x", "1"), headers("text/plain", "42.0")),
        headers("text/plain", "42.0")
    );
    assert_eq!(
        copied_headers(Some("REPLACE"), headers("x", "1"), headers("y", "2")),
        headers("x", "1")
    );
}

#[test]
fn denies_unknown_keys_and_ungranted_buckets() {
    assert_eq!(read_allowed(None), Err(S3Code::AccessDenied));
    assert_eq!(write_allowed(None), Err(S3Code::AccessDenied));
    assert_eq!(write_allowed(Some(false)), Err(S3Code::AccessDenied));
    assert_eq!(read_allowed(Some(false)), Ok(()));
    assert_eq!(write_allowed(Some(true)), Ok(()));
    assert_eq!(create_allowed(false, true), Err(S3Code::AccessDenied));
    assert_eq!(create_allowed(true, true), Err(S3Code::BucketAlreadyExists));
    assert_eq!(create_allowed(true, false), Ok(()));
    assert_eq!(delete_allowed(1), Err(S3Code::BucketNotEmpty));
    assert_eq!(delete_allowed(0), Ok(()));
}

fn part(number: i32, size: u64, etag: &str) -> PartRecord {
    PartRecord {
        number,
        size,
        etag: etag.to_owned(),
        segments: vec![],
    }
}

fn asked(number: i32, etag: &str) -> RequestedPart {
    RequestedPart {
        number: Some(number),
        etag: Some(etag.to_owned()),
    }
}

#[test]
fn completes_a_multipart_upload() {
    let (_, size, digest) = segments(b"multipart body", 16, 14);
    assert_eq!(size, 14);
    check_part_number(1).unwrap();
    check_part_size(size).unwrap();
    let stored = vec![part(1, size, &hex(&digest))];
    let requested = requested_parts(Some(vec![asked(1, &hex(&digest))])).unwrap();
    let selected = select_parts(&requested, &stored, 1024).unwrap();
    assert_eq!(selected, vec![0]);
    let etag = multipart_etag(&stored, &selected).unwrap();
    assert_eq!(etag, "a706688e59fbf23ab919a15395857c9b-1");
    assert!(etag.ends_with("-1"));

    let completed = complete_multipart(
        Some(("bucket", "multipart")),
        "bucket",
        "multipart",
        Some(requested),
        &stored,
        1024,
    )
    .unwrap();
    assert_eq!(completed.size, 14);
    assert_eq!(completed.etag, etag);
}

#[test]
fn completing_joins_the_segments_of_the_parts() {
    let segment = |id: &str| {
        let mut row = columns(vec![3; 32]);
        row.id = id.to_owned();
        segment_from_row(row).unwrap()
    };
    let mut stored = vec![
        part(1, 5_242_880, "0cc175b9c0f1b6a831c399e269772661"),
        part(2, 7, "92eb5ffee6ae2fec3ad71c777531578f"),
    ];
    stored[0].segments = vec![segment("a"), segment("b")];
    stored[1].segments = vec![segment("c")];
    let requested = || {
        Some(vec![
            asked(1, "0cc175b9c0f1b6a831c399e269772661"),
            asked(2, "92eb5ffee6ae2fec3ad71c777531578f"),
        ])
    };
    let complete = |upload, requested, max| {
        complete_multipart(upload, "bucket", "key", requested, &stored, max)
    };
    let completed = complete(Some(("bucket", "key")), requested(), u64::MAX).unwrap();
    let ids: Vec<&str> = completed.segments.iter().map(|s| s.id.as_str()).collect();
    assert_eq!(ids, ["a", "b", "c"]);
    assert_eq!(completed.size, 5_242_887);
    assert_eq!(completed.etag, "96e024ba2074fe77e8e965ba43a704be-2");
    let error = |upload, requested, max| complete(upload, requested, max).unwrap_err();
    assert_eq!(error(None, requested(), u64::MAX), S3Code::NoSuchUpload);
    assert_eq!(
        error(Some(("bucket", "key")), None, u64::MAX),
        S3Code::InvalidPart
    );
    assert_eq!(
        error(Some(("bucket", "key")), requested(), 5_242_886),
        S3Code::EntityTooLarge
    );
}

#[test]
fn multipart_tags_hash_the_part_hashes() {
    let stored = vec![
        part(1, 5_242_880, "0cc175b9c0f1b6a831c399e269772661"),
        part(2, 1, "92eb5ffee6ae2fec3ad71c777531578f"),
    ];
    assert_eq!(
        multipart_etag(&stored, &vec![0, 1]).unwrap(),
        "96e024ba2074fe77e8e965ba43a704be-2"
    );
    assert_eq!(
        multipart_etag(&vec![part(1, 1, "xyz")], &vec![0]),
        Err(S3Code::InternalError)
    );
}

#[test]
fn refuses_parts_that_do_not_fit() {
    let stored = vec![part(1, 5_242_880, "a"), part(2, 1, "b"), part(3, 1, "c")];
    let select = |requested: Vec<RequestedPart>, max| select_parts(&requested, &stored, max);
    assert_eq!(
        select(vec![asked(1, "a"), asked(2, "b")], u64::MAX),
        Ok(vec![0, 1])
    );
    assert_eq!(
        select(vec![asked(2, "b"), asked(1, "a")], u64::MAX),
        Err(S3Code::InvalidPartOrder)
    );
    assert_eq!(
        select(vec![asked(1, "b")], u64::MAX),
        Err(S3Code::InvalidPart)
    );
    assert_eq!(
        select(vec![asked(4, "a")], u64::MAX),
        Err(S3Code::InvalidPart)
    );
    assert_eq!(
        select(vec![asked(2, "b"), asked(3, "c")], u64::MAX),
        Err(S3Code::EntityTooSmall)
    );
    assert_eq!(
        select(vec![asked(1, "a"), asked(2, "b")], 5_242_880),
        Err(S3Code::EntityTooLarge)
    );
    assert!(requested_parts(None).is_err());
}

#[test]
fn bodies_are_cut_whatever_their_chunks() {
    for chunk in 1..=40 {
        let (parts, size, digest) = segments(BODY, 16, chunk);
        assert_eq!(parts.concat(), BODY);
        assert_eq!(
            parts.iter().map(|part| part.len()).collect::<Vec<_>>(),
            [16, 16, 3]
        );
        assert_eq!(size, 35);
        assert_eq!(hex(&digest), "8aec8672f465ae1503f90428479ace5a");
    }
    let mut limited = match BodySegmenter::new(16, 34) {
        Ok(segmenter) => segmenter,
        Err(error) => panic!("{error:?}"),
    };
    assert_eq!(
        limited.push(&Bytes::from_static(BODY)),
        Err(S3Code::EntityTooLarge)
    );
    assert!(BodySegmenter::new(0, 34).is_err());
    assert_eq!(hex(&empty_digest()), "d41d8cd98f00b204e9800998ecf8427e");
}

#[test]
fn checks_digests() {
    let digest = empty_digest();
    assert_eq!(verify_md5(None, &digest), Ok(()));
    assert_eq!(verify_md5(Some("1B2M2Y8AsgTpgAmY7PhCfg=="), &digest), Ok(()));
    assert_eq!(
        verify_md5(Some("iuyGcvRlrhUD+QQoR5rOWg=="), &digest),
        Err(S3Code::BadDigest)
    );
    assert_eq!(
        body_etag(Some("1B2M2Y8AsgTpgAmY7PhCfg=="), &digest),
        Ok("d41d8cd98f00b204e9800998ecf8427e".to_owned())
    );
    assert_eq!(body_etag(Some("x"), &digest), Err(S3Code::BadDigest));
    assert_eq!(judge_md5(None, "x"), Ok(()));
    assert_eq!(judge_md5(Some("x"), "x"), Ok(()));
    assert_eq!(judge_md5(Some("x"), "y"), Err(S3Code::BadDigest));
    assert_eq!(segment_capacity(2, 24), Ok(16));
    assert_eq!(segment_capacity(2, 16), Err(S3Code::InternalError));
    assert_eq!(segment_capacity(0, 24), Err(S3Code::InternalError));
}

#[test]
fn hex_round_trips() {
    let bytes: Vec<u8> = (0..=255).collect();
    assert_eq!(unhex(&hex(&bytes)), Some(bytes));
    assert_eq!(unhex("Ff"), Some(vec![255]));
    assert_eq!(unhex("f"), None);
    assert_eq!(unhex("zz"), None);
}

fn rows(keys: &[&str]) -> Vec<ObjectSummary> {
    keys.iter()
        .map(|key| ObjectSummary {
            key: (*key).to_owned(),
            size: 1,
            etag: String::new(),
            created_at: 0,
        })
        .collect()
}

#[test]
fn lists_pages_with_common_prefixes() {
    let rows = rows(&["dir/a/1", "dir/a/2", "dir/b", "dir/c/1", "dir/d"]);
    let page = list_page(&rows, 4, Some("/"), 4);
    assert_eq!(page.contents, vec![2]);
    assert_eq!(page.common_prefixes, vec!["dir/a/", "dir/c/"]);
    assert_eq!(page.next, Some("dir/c/1".to_owned()));
    assert!(page.is_truncated());
    assert_eq!(page.key_count(), 3);

    let page = list_page(&rows, 4, None, 5);
    assert_eq!(page.contents, vec![0, 1, 2, 3, 4]);
    assert!(!page.is_truncated());
    assert_eq!((page_size(None), page_size(Some(5_000))), (1_000, 1_000));
    assert_eq!((page_size(Some(-1)), page_size(Some(7))), (0, 7));
    assert_eq!(page_start(Some("t".to_owned()), Some("s".to_owned())), "t");
    assert_eq!(page_start(None, Some("s".to_owned())), "s");
    assert_eq!(page_start(None, None), "");
}

#[test]
fn ranges_are_checked_against_the_size() {
    let int = |first, last| Some(RequestedRange::Int { first, last });
    let suffix = |length| Some(RequestedRange::Suffix { length });
    assert_eq!(check_range(None, 10), Ok(0..10));
    assert_eq!(check_range(int(3, None), 10), Ok(3..10));
    assert_eq!(check_range(int(3, Some(99)), 10), Ok(3..10));
    assert_eq!(check_range(int(10, None), 10), Err(S3Code::InvalidRange));
    assert_eq!(check_range(int(5, Some(4)), 10), Err(S3Code::InvalidRange));
    assert_eq!(check_range(suffix(3), 10), Ok(7..10));
    assert_eq!(check_range(suffix(30), 10), Ok(0..10));
    assert_eq!(check_range(suffix(0), 10), Err(S3Code::InvalidRange));
    assert_eq!(
        plan_read(suffix(3), 10),
        Ok(ObjectRead {
            start: 7,
            end: 10,
            content_length: 3,
            content_range: Some("bytes 7-9/10".to_owned()),
        })
    );
    assert_eq!(plan_read(None, 0).map(|read| read.content_range), Ok(None));
    assert_eq!(plan_read(suffix(0), 10), Err(S3Code::InvalidRange));
    assert_eq!(partial_range(0, 10, 10), None);
    assert_eq!(partial_range(2, 5, 10), Some("bytes 2-4/10".to_owned()));
    assert_eq!(
        segment_ranges(&vec![4, 4, 4], 2..9),
        vec![
            SegmentRange {
                index: 0,
                start: 2,
                end: 4
            },
            SegmentRange {
                index: 1,
                start: 0,
                end: 4
            },
            SegmentRange {
                index: 2,
                start: 0,
                end: 1
            },
        ]
    );
}

#[test]
fn checks_multipart_requests() {
    assert_eq!(check_part_number(0), Err(S3Code::InvalidArgument));
    assert_eq!(check_part_number(10_001), Err(S3Code::InvalidArgument));
    assert_eq!(check_part_size(0), Err(S3Code::EntityTooSmall));
    assert_eq!(check_upload(Some(("b", "k")), "b", "k"), Ok(()));
    assert_eq!(
        check_upload(Some(("b", "k")), "b", "other"),
        Err(S3Code::NoSuchUpload)
    );
    assert_eq!(check_upload(None, "b", "k"), Err(S3Code::NoSuchUpload));
    let keys = || vec!["a".to_owned()];
    assert_eq!(reported_keys(keys(), Some(true)), Vec::<String>::new());
    assert_eq!(reported_keys(keys(), None), keys());
    assert_eq!(garbage_cutoff(10_000), 6_400);
    assert_eq!((timestamp(-5), timestamp(5)), (0, 5));
    assert_eq!(escape_like("a%b_c\\"), "a\\%b\\_c\\\\");
    assert_eq!(prefix_pattern("a_"), "a\\_%");
}

fn columns(key: Vec<u8>) -> SegmentColumns {
    SegmentColumns {
        id: "s".to_owned(),
        uri: "uri".to_owned(),
        decrypt_key: key,
        cached_url: Some("url".to_owned()),
        cached_url_expires_at: Some(9),
        frame_count: 2,
        plaintext_size: 5,
    }
}

#[test]
fn rebuilds_segments() {
    let segment = segment_from_row(columns(vec![3; 32])).unwrap();
    assert_eq!((segment.frame_count, segment.plaintext_size), (2, 5));
    let url = segment.stored.cached_url.as_ref().unwrap();
    assert_eq!((url.as_str(), url.expires_at()), ("url", Some(9)));
    let meta = segment.object_meta();
    assert_eq!((meta.id.as_str(), meta.uri.as_str()), ("s", "uri"));
    assert!(segment_from_row(columns(vec![3; 31])).is_none());
}
