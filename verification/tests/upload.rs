use bytes::{Bytes, BytesMut};
use frame_store::byte::{ByteClipper, ByteRequest};
use frame_store::download::{physical_range, FrameDownload};
use frame_store::frame::FrameDecoder;
use frame_store::request::DecryptKey;
use frame_store::upload::{
    check_length, complete_upload, max_frames_per_segment, physical_size, ByteUpload,
    SegmentEncoder, StoredObject, UploadError, UploadResult,
};

const MAX_PHYSICAL_BYTES: u64 = 72;

/// Uploads a body into memory; the answer is the encrypted frames and the
/// result.
fn upload(
    chunks: &[&[u8]],
    content_length: Option<u64>,
) -> (Vec<Bytes>, Result<UploadResult, UploadError>) {
    let frames = max_frames_per_segment(MAX_PHYSICAL_BYTES, 24);
    let upload = ByteUpload::new(frames, 24).unwrap();
    let mut stored = Vec::new();
    let (mut cutter, _) = match upload.begin(content_length) {
        Ok(started) => started,
        Err(error) => return (stored, Err(error)),
    };
    let mut encoder = SegmentEncoder::new(24, &DecryptKey::new([7; 32])).unwrap();
    for chunk in chunks {
        let frames = match cutter.push(&Bytes::copy_from_slice(chunk)) {
            Ok(frames) => frames,
            Err(error) => return (stored, Err(error)),
        };
        for frame in &frames {
            stored.push(encoder.encode(frame).unwrap());
        }
    }
    let end = match cutter.finish() {
        Ok(end) => end,
        Err(error) => return (stored, Err(error)),
    };
    if let Some(frame) = &end.last_frame {
        stored.push(encoder.encode(frame).unwrap());
    }
    let object = StoredObject {
        uri: "memory://segment".to_owned(),
        cached_url: None,
    };
    (stored, complete_upload(object, Some(end.summary), content_length))
}

#[test]
fn chunks_hashes_pads_and_encrypts() {
    let (encrypted, result) = upload(&[b"abc", b"defghijk"], Some(11));
    let result = result.unwrap();

    assert_eq!(result.plaintext_size, 11);
    assert_eq!(result.frame_count, 2);
    assert_eq!(result.checksum, *blake3::hash(b"abcdefghijk").as_bytes());
    assert_eq!(result.stored_object.uri, "memory://segment");
    let decoder = FrameDecoder::new(24, &DecryptKey::new([7; 32])).unwrap();
    assert_eq!(
        decoder
            .decode_frame(BytesMut::from(&encrypted[0][..]), 0)
            .unwrap(),
        &b"abcdefgh"[..]
    );
    assert_eq!(
        &decoder
            .decode_frame(BytesMut::from(&encrypted[1][..]), 1)
            .unwrap()[..3],
        b"ijk"
    );
}

#[test]
fn rejects_oversize_body() {
    let (_, result) = upload(&[&[0; 25]], None);
    let error = result.unwrap_err();
    assert!(error.message().contains("exceeds 24"));
}

#[test]
fn deletes_object_after_length_mismatch() {
    let (_, result) = upload(&[b"abc"], Some(4));
    let error = result.unwrap_err();
    assert!(error.message().contains("Content-Length"));
    assert_eq!(
        error,
        UploadError::LengthMismatch {
            expected: 4,
            actual: 3
        }
    );
}

#[test]
fn refuses_bodies_before_they_are_read() {
    assert_eq!(
        upload(&[b"a"], Some(25)).1.unwrap_err(),
        UploadError::TooLarge { max_bytes: 24 }
    );
    assert_eq!(upload(&[], None).1.unwrap_err(), UploadError::Empty);
    assert_eq!(upload(&[], Some(0)).1.unwrap_err(), UploadError::Empty);
    assert_eq!(
        ByteUpload::new(3, 16).unwrap_err(),
        UploadError::FrameTooSmall
    );
    assert_eq!(
        ByteUpload::new(0, 24).unwrap_err(),
        UploadError::ZeroCapacity
    );
    let object = StoredObject {
        uri: "memory://segment".to_owned(),
        cached_url: None,
    };
    assert_eq!(
        complete_upload(object, None, None).unwrap_err(),
        UploadError::Incomplete
    );
}

#[test]
fn announces_the_frames_of_a_known_length() {
    let upload = ByteUpload::new(3, 24).unwrap();
    assert_eq!(upload.payload_size(), 8);
    assert_eq!(upload.max_bytes(), 24);
    assert_eq!(upload.begin(Some(17)).map(|started| started.1), Ok(Some(3)));
    assert_eq!(upload.begin(None).map(|started| started.1), Ok(None));
    assert_eq!(physical_size(3, 24), 72);
    assert_eq!(max_frames_per_segment(71, 24), 2);
}

#[test]
fn an_uploaded_range_reads_back() {
    let body: Vec<u8> = (1..=21).collect();
    let chunks: Vec<&[u8]> = body.chunks(5).collect();
    let (encrypted, result) = upload(&chunks, None);
    assert_eq!(result.unwrap().frame_count, 3);
    let stored: Vec<u8> = encrypted.concat();
    for start in 0..21u64 {
        for end in start + 1..=21 {
            let request = ByteRequest::new(start..end).unwrap();
            let frames = request.frame_request(8).unwrap().frames();
            let frames = frames.start as u32..frames.end as u32;
            let range = physical_range(frames.clone(), 24).unwrap();
            let mut download = FrameDownload::new(24, &DecryptKey::new([7; 32]), frames).unwrap();
            let mut clipper = ByteClipper::for_request(&request, 8);
            let mut output = Vec::new();
            for chunk in stored[range.start as usize..range.end as usize].chunks(7) {
                download.push(Bytes::copy_from_slice(chunk));
                while let Some(frame) = download.next_frame().unwrap() {
                    output.extend_from_slice(&clipper.clip(frame));
                }
            }
            download.finish().unwrap();
            assert_eq!(output, &body[start as usize..end as usize]);
        }
    }
}

#[test]
fn describes_upload_errors() {
    assert_eq!(
        UploadError::FrameTooSmall.message(),
        "frame size must be greater than the tag"
    );
    assert_eq!(
        UploadError::ZeroCapacity.message(),
        "upload backend accepts no frames"
    );
    assert_eq!(
        UploadError::Empty.message(),
        "segment body must not be empty"
    );
    assert_eq!(
        UploadError::TooLarge { max_bytes: 24 }.message(),
        "segment exceeds 24 plaintext bytes"
    );
    assert_eq!(
        UploadError::LengthMismatch {
            expected: 4,
            actual: 3
        }
        .message(),
        "Content-Length was 4, body contained 3 bytes"
    );
    assert_eq!(
        UploadError::Incomplete.message(),
        "upload backend stopped before consuming the body"
    );
}

#[test]
fn compares_the_announced_length() {
    assert_eq!(check_length(None, 7), Ok(()));
    assert_eq!(check_length(Some(7), 7), Ok(()));
    assert_eq!(
        check_length(Some(8), 7),
        Err(UploadError::LengthMismatch {
            expected: 8,
            actual: 7
        })
    );
}
