use frame_store::planning::{
    LogicalRead, ObjectReadPlan, PhysicalRange, ReadPlanner, StreamRequestError,
};
use frame_store::request::{DecryptKey, ObjectId, ObjectMeta};

const FRAME_SIZE: u32 = 32;
const PAYLOAD_SIZE: u64 = 16;
const FRAMES_PER_OBJECT: u32 = 4;

fn object(index: usize, frame_count: u32) -> ObjectMeta {
    ObjectMeta {
        id: ObjectId::new(&format!("object-{index}")),
        uri: format!("objects/{index}"),
        frame_count,
        decrypt_key: DecryptKey::new([0; 32]),
    }
}

fn request(offset: u64, size: u64, frame_counts: &[u32]) -> LogicalRead {
    let objects = frame_counts
        .iter()
        .enumerate()
        .map(|(index, count)| object(index, *count))
        .collect();
    match LogicalRead::new(
        Some(offset),
        size,
        objects,
        Some(FRAME_SIZE),
        FRAMES_PER_OBJECT,
    ) {
        Ok(read) => read,
        Err(error) => panic!("{error:?}"),
    }
}

#[test]
fn plans_an_unaligned_range_as_complete_frames() {
    let planner = ReadPlanner::new(&request(10, 20, &[4]));

    assert_eq!(
        planner.plans(),
        &vec![ObjectReadPlan {
            object_index: 0,
            first_global_frame: 0,
            end_global_frame_exclusive: 2,
            first_frame_in_object: 0,
            end_frame_in_object_exclusive: 2,
            physical_range: PhysicalRange::new(0, 63),
            logical_start: 10,
            logical_end_exclusive: 30,
        }]
    );
}

#[test]
fn splits_a_read_at_object_boundaries() {
    let planner = ReadPlanner::new(&request(3 * PAYLOAD_SIZE, 3 * PAYLOAD_SIZE, &[4, 4]));

    assert_eq!(planner.plans().len(), 2);
    assert_eq!(planner.plans()[0].object_index, 0);
    assert_eq!(
        planner.plans()[0].physical_range.to_header_value(),
        "bytes=96-127"
    );
    assert_eq!(planner.plans()[1].object_index, 1);
    assert_eq!(
        planner.plans()[1].physical_range.to_header_value(),
        "bytes=0-63"
    );
    assert_eq!(planner.plans()[1].logical_end_exclusive, 6 * PAYLOAD_SIZE);
}

#[test]
fn clips_a_request_to_a_short_final_object() {
    let request = request(7 * PAYLOAD_SIZE, 10 * PAYLOAD_SIZE, &[4, 4, 2]);
    let planner = ReadPlanner::new(&request);

    assert_eq!(request.logical_len(), Some(10 * PAYLOAD_SIZE));
    assert_eq!(planner.logical_end_exclusive(), 10 * PAYLOAD_SIZE);
    assert_eq!(planner.plans().len(), 2);
    assert_eq!(planner.plans()[1].object_index, 2);
    assert_eq!(
        planner.plans()[1].physical_range.to_header_value(),
        "bytes=0-63"
    );
    assert_eq!(planner.plans()[1].logical_end_exclusive, 10 * PAYLOAD_SIZE);
}

#[test]
fn returns_no_plans_when_offset_is_at_or_after_eof() {
    let planner = ReadPlanner::new(&request(128, 16, &[4, 4]));
    assert!(planner.plans().is_empty());

    let planner = ReadPlanner::new(&request(129, 16, &[4, 4]));
    assert!(planner.plans().is_empty());
}

fn refusal(offset: Option<u64>, size: u64, objects: Vec<ObjectMeta>, frame_size: u32) -> StreamRequestError {
    match LogicalRead::new(offset, size, objects, Some(frame_size), FRAMES_PER_OBJECT) {
        Ok(_) => panic!("the request was accepted"),
        Err(error) => error,
    }
}

#[test]
fn rejects_a_short_non_final_object() {
    let error = refusal(None, 1, vec![object(0, 3), object(1, 4)], FRAME_SIZE);

    assert_eq!(
        error,
        StreamRequestError::ShortNonFinalObject {
            object_index: 0,
            frame_count: 3,
            expected: 4,
        }
    );
}

#[test]
fn rejects_a_requested_range_that_overflows() {
    let error = refusal(Some(u64::MAX), 1, vec![object(0, 4)], FRAME_SIZE);

    assert_eq!(error, StreamRequestError::RequestedRangeOverflow);
}

#[test]
fn rejects_frames_without_payload() {
    assert_eq!(
        refusal(None, 1, vec![], 16),
        StreamRequestError::FrameTooSmall
    );
    assert_eq!(
        refusal(None, u64::MAX, vec![object(0, 4), object(1, 3), object(2, 4)], FRAME_SIZE),
        StreamRequestError::ShortNonFinalObject {
            object_index: 1,
            frame_count: 3,
            expected: 4,
        }
    );
}

#[test]
fn plans_cover_the_read_without_gaps() {
    for offset in 0..200u64 {
        for size in 0..80u64 {
            let read = request(offset, size, &[4, 4, 2]);
            let planner = ReadPlanner::new(&read);
            let mut at = offset;
            for plan in planner.plans() {
                assert_eq!(plan.logical_start, at);
                assert!(plan.logical_start < plan.logical_end_exclusive);
                assert_eq!(plan.frame_count(), (plan.end_frame_in_object_exclusive - plan.first_frame_in_object) as u64);
                assert_eq!(plan.physical_range.len(), plan.frame_count() * FRAME_SIZE as u64);
                assert!(!plan.physical_range.is_empty());
                at = plan.logical_end_exclusive;
            }
            let end = (offset + size).min(160);
            assert_eq!(at, end.max(offset));
            assert_eq!(read.requested_end(), offset + size);
        }
    }
}

#[test]
fn a_read_keeps_its_settings() {
    let read = match LogicalRead::new(None, 5, vec![object(0, 2)], None, 4) {
        Ok(read) => read,
        Err(error) => panic!("{error:?}"),
    };
    assert_eq!(read.offset(), 0);
    assert_eq!(read.frame_size(), 65_536);
    assert_eq!(read.frame_payload_size(), 65_520);
    assert_eq!(read.objects().len(), 1);
    assert_eq!(read.logical_len(), Some(131_040));
    let range = PhysicalRange::new(3, 9);
    assert_eq!((range.start(), range.end_inclusive(), range.len()), (3, 9, 7));
}
