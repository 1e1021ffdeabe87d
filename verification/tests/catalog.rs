use frame_store::catalog::{
    attach_segment, cached_url, complete_file, completed_size, confirm_attached, open_file,
    pool_settings, reserve_segment, stored_object, valid_after, CatalogError, FileRow,
    PoolSettings, SegmentRow,
};
use frame_store::http::{
    check_allocation, check_new_file, segment_step, ApiError, SegmentAction, SegmentEvent,
    ServerConfig,
};

fn open_row(expected_size: i64) -> Option<FileRow> {
    Some(FileRow {
        expected_size,
        size: None,
        completed_at: None,
    })
}

fn rows(sizes: &[(i64, i64)]) -> Vec<SegmentRow> {
    sizes
        .iter()
        .map(|&(index, size)| SegmentRow { index, size })
        .collect()
}

fn config(max_file_size: u64) -> ServerConfig {
    ServerConfig {
        frame_size: 24,
        max_file_size,
    }
}

#[test]
fn lib_creates_uploads_and_completes_a_file() {
    assert_eq!(check_allocation(20, &config(100)), Ok(()));
    assert_eq!(reserve_segment(open_row(20), 1), Ok(()));
    assert_eq!(attach_segment(open_row(20), 0, 5), Ok(()));
    assert_eq!(confirm_attached(1), Ok(()));
    assert_eq!(complete_file(open_row(20), 0, &rows(&[(0, 5)]), 8), Ok(5));
}

#[test]
fn lib_enforces_file_limit_and_immutable_indices() {
    let refused = check_allocation(11, &config(10)).unwrap_err();
    assert_eq!(refused.status, 413);
    assert_eq!(check_new_file("test.bin", 11, &config(10)), Err(refused));
    assert_eq!(check_allocation(3, &config(10)), Ok(()));
    assert_eq!(attach_segment(open_row(3), 0, 3), Ok(()));
    // The index was taken, so that nothing was inserted.
    let taken = reserve_segment(open_row(3), 0).unwrap_err();
    assert_eq!(taken, CatalogError::IndexExists);
    assert_eq!(ApiError::catalog(taken).status, 409);

    assert_eq!(reserve_segment(open_row(3), 1), Ok(()));
    let over = attach_segment(open_row(3), 3, 1).unwrap_err();
    assert_eq!(over, CatalogError::AllocationExceeded);
    match segment_step(SegmentEvent::NotAttached(ApiError::catalog(over))) {
        SegmentAction::Refuse { error, cleanup } => {
            assert_eq!(error.status, 409);
            assert!(cleanup.delete_stored && cleanup.cancel_reservation);
        }
        other => panic!("{other:?}"),
    }
}

#[test]
fn lib_rejects_gaps_and_misaligned_middle_segments() {
    let gap = complete_file(open_row(100), 0, &rows(&[(1, 8)]), 8).unwrap_err();
    assert_eq!(gap, CatalogError::SegmentGap);
    assert_eq!(ApiError::catalog(gap).status, 409);

    let short = complete_file(open_row(100), 0, &rows(&[(0, 5), (1, 8)]), 8).unwrap_err();
    assert_eq!(short, CatalogError::MisalignedSegment);
    assert_eq!(ApiError::catalog(short).status, 409);
}

#[test]
fn serializes_concurrent_allocation_and_blocks_finalize_during_upload() {
    assert_eq!(
        complete_file(open_row(8), 1, &rows(&[]), 8),
        Err(CatalogError::UploadInProgress)
    );
    assert_eq!(attach_segment(open_row(8), 0, 8), Ok(()));
    assert_eq!(
        attach_segment(open_row(8), 8, 8),
        Err(CatalogError::AllocationExceeded)
    );
}

#[test]
fn completed_files_stay_closed() {
    let done = Some(FileRow {
        expected_size: 8,
        size: Some(5),
        completed_at: Some(1),
    });
    assert_eq!(open_file(done), Err(CatalogError::Completed));
    assert_eq!(open_file(None), Err(CatalogError::NotFound));
    assert_eq!(open_file(open_row(8)).map(|row| row.expected_size), Ok(8));
    assert_eq!(reserve_segment(done, 1), Err(CatalogError::Completed));
    assert_eq!(attach_segment(done, 0, 1), Err(CatalogError::Completed));
    assert_eq!(
        complete_file(done, 0, &rows(&[]), 8),
        Err(CatalogError::Completed)
    );
    assert_eq!(completed_size(done), Ok(5));
    assert_eq!(completed_size(open_row(8)), Err(CatalogError::NotCompleted));
    assert_eq!(completed_size(None), Err(CatalogError::NotFound));
    assert_eq!(confirm_attached(0), Err(CatalogError::IndexExists));
}

#[test]
fn completing_needs_segments_within_the_allocation() {
    assert_eq!(complete_file(open_row(8), 0, &rows(&[]), 8), Ok(0));
    assert_eq!(
        complete_file(open_row(8), 0, &rows(&[(0, 8), (1, 1)]), 8),
        Err(CatalogError::AllocationExceeded)
    );
    assert_eq!(
        complete_file(open_row(20), 0, &rows(&[(0, 16), (1, 4)]), 8),
        Ok(20)
    );
}

#[test]
fn reads_stored_objects() {
    let object = match stored_object("s", "uri".to_owned(), 3, &vec![7; 32]) {
        Ok(object) => object,
        Err(error) => panic!("{error:?}"),
    };
    assert_eq!(object.id.as_str(), "s");
    assert_eq!((object.uri.as_str(), object.frame_count), ("uri", 3));
    assert_eq!(
        stored_object("s", "uri".to_owned(), 3, &vec![7; 31]).err(),
        Some(CatalogError::InvalidKey)
    );
    assert_eq!(
        stored_object("s", "uri".to_owned(), -1, &vec![7; 32]).err(),
        Some(CatalogError::InvalidFrameCount)
    );
}

#[test]
fn cached_urls_expire_with_a_margin() {
    assert_eq!(valid_after(1_000), 1_300);
    let url = cached_url(Some("u".to_owned()), Some(1_301), 1_300).unwrap();
    assert_eq!((url.as_str(), url.expires_at()), ("u", Some(1_301)));
    assert!(cached_url(Some("u".to_owned()), Some(1_300), 1_300).is_none());
    assert!(cached_url(Some("u".to_owned()), None, 1_300).is_none());
    assert!(cached_url(None, Some(1_301), 1_300).is_none());
}

#[test]
fn describes_catalog_errors() {
    assert_eq!(ApiError::catalog(CatalogError::NotFound).status, 404);
    assert_eq!(CatalogError::NotFound.message(), "file not found");
}

#[test]
fn databases_in_memory_have_one_connection() {
    let memory = PoolSettings {
        write_ahead_log: false,
        max_connections: 1,
    };
    let file = PoolSettings {
        write_ahead_log: true,
        max_connections: 4,
    };
    assert_eq!(pool_settings("sqlite::memory:"), memory);
    assert_eq!(pool_settings("sqlite://:memory:?cache=shared"), memory);
    assert_eq!(pool_settings("sqlite://files.db"), file);
    assert_eq!(pool_settings("sqlite://memory"), file);
}
