use frame_store::catalog::CatalogError;
use frame_store::http::{
    check_new_file, content_disposition, content_length, content_range, download_head, hex,
    parse_range, plan_download, range_error, segment_step, ApiError, Cleanup, DownloadPlan,
    SegmentAction, SegmentEvent, ServerConfig,
};
use frame_store::upload::UploadError;

#[test]
fn ranges_stay_within_the_file() {
    assert_eq!(parse_range(None, 11), Ok(0..11));
    let error = parse_range(Some("bytes=99-"), 11).unwrap_err();
    assert_eq!(error, range_error(11));
    assert_eq!(parse_range(Some("bytes=2-"), 11), Ok(2..11));
    assert_eq!(parse_range(Some("bytes=0-99"), 11), Ok(0..11));
    assert_eq!(parse_range(Some("bytes=-99"), 11), Ok(0..11));
    assert_eq!(
        parse_range(Some("bytes=0-18446744073709551615"), 11),
        Ok(0..11)
    );
    for refused in [
        "bytes=",
        "bytes=-",
        "bytes=-0",
        "bytes=8-2",
        "bytes=11-",
        "bytes=0-1,3-4",
        "bytes=a-b",
        "items=0-1",
        "bytes=5",
        "bytes=1-2-3",
    ] {
        assert!(parse_range(Some(refused), 11).is_err(), "{refused}");
    }
    assert!(parse_range(Some("bytes=-1"), 0).is_err());
    assert_eq!(
        range_error(11).message,
        "invalid byte range for 11-byte file"
    );
}

#[test]
fn names_are_encoded() {
    assert_eq!(
        content_disposition("a \"b\\\u{e9}~"),
        "attachment; filename=\"a _b__~\"; filename*=UTF-8''a%20%22b%5c%c3%a9~"
    );
    assert_eq!(hex(&[0, 255, 16]), "00ff10");
    assert_eq!(content_range(0, 1, 5), "bytes 0-0/5");
}

#[test]
fn errors_have_their_status() {
    let status = |error| ApiError::upload(error, "text").status;
    assert_eq!(status(Some(UploadError::TooLarge { max_bytes: 1 })), 413);
    assert_eq!(
        status(Some(UploadError::LengthMismatch {
            expected: 1,
            actual: 2
        })),
        400
    );
    assert_eq!(status(Some(UploadError::Empty)), 400);
    assert_eq!(status(Some(UploadError::Incomplete)), 502);
    assert_eq!(status(None), 502);
    assert_eq!(ApiError::internal("x"), ApiError::new(500, "x"));
    assert_eq!(
        ApiError::catalog(CatalogError::NotFound),
        ApiError::new(404, "file not found")
    );
    assert_eq!(
        ApiError::catalog(CatalogError::SegmentGap),
        ApiError::new(409, "segment indices are not continuous")
    );
    let config = ServerConfig::default();
    assert_eq!(
        (config.frame_size, config.max_file_size),
        (65_536, 21_474_836_480)
    );
    assert_eq!(
        check_new_file("", 1, &config).unwrap_err(),
        ApiError::new(400, "file name is required")
    );
    assert_eq!(content_length(Some("12")), Some(12));
    assert_eq!(content_length(Some("x")), None);
    assert_eq!(content_length(None), None);
}

fn refusal(error: ApiError, delete_stored: bool, cancel_reservation: bool) -> SegmentAction {
    SegmentAction::Refuse {
        error,
        cleanup: Cleanup {
            delete_stored,
            cancel_reservation,
        },
    }
}

#[test]
fn a_failed_segment_undoes_what_came_before() {
    assert_eq!(segment_step(SegmentEvent::Reserved), SegmentAction::Upload);
    assert_eq!(segment_step(SegmentEvent::Stored), SegmentAction::Attach);
    assert_eq!(segment_step(SegmentEvent::Attached), SegmentAction::Answer);
    let conflict = || ApiError::catalog(CatalogError::IndexExists);
    assert_eq!(
        segment_step(SegmentEvent::NotReserved(conflict())),
        refusal(conflict(), false, false)
    );
    assert_eq!(
        segment_step(SegmentEvent::NotStarted("x".to_owned())),
        refusal(ApiError::new(500, "x"), false, false)
    );
    assert_eq!(
        segment_step(SegmentEvent::NotStored(
            Some(UploadError::Empty),
            "empty".to_owned()
        )),
        refusal(ApiError::new(400, "empty"), false, true)
    );
    assert_eq!(
        segment_step(SegmentEvent::NotAttached(conflict())),
        refusal(conflict(), true, true)
    );
}

#[test]
fn plans_downloads() {
    assert_eq!(
        plan_download(Some("bytes=2-8"), 11),
        Ok(DownloadPlan {
            start: 2,
            end: 9,
            head: download_head(2, 9, 11),
        })
    );
    assert_eq!(
        plan_download(None, 0).map(|plan| plan.head.content_length),
        Ok(0)
    );
    assert_eq!(plan_download(Some("bytes=11-"), 11), Err(range_error(11)));
}
