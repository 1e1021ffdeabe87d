use aes_gcm::aead::{AeadInPlace, KeyInit};
use aes_gcm::{Aes256Gcm, Nonce};
use bytes::{Bytes, BytesMut};
use frame_store::download::{physical_range, DownloadError, FrameDownload};
use frame_store::frame::{FrameAssembler, FrameDecoder, FrameEncoder, FrameError};
use frame_store::request::{DecryptKey, ObjectId, RequestError, StreamRequest};

fn encrypt(key: &[u8; 32], index: u64, payload: &[u8]) -> BytesMut {
    let cipher = Aes256Gcm::new(key.into());
    let mut ciphertext = payload.to_vec();
    let mut nonce = [0; 12];
    nonce[4..].copy_from_slice(&index.to_be_bytes());
    let tag = cipher
        .encrypt_in_place_detached(Nonce::from_slice(&nonce), b"", &mut ciphertext)
        .unwrap();
    let mut frame = BytesMut::new();
    frame.extend_from_slice(&tag);
    frame.extend_from_slice(&ciphertext);
    frame
}

#[test]
fn frame_assembles_frames_across_chunk_boundaries() {
    let mut assembler = FrameAssembler::new(4).unwrap();

    assembler.push(Bytes::from_static(&[0, 1, 2]));
    assert_eq!(assembler.next_frame(), None);

    assembler.push(Bytes::from_static(&[3, 4, 5, 6, 7, 8]));
    assert_eq!(
        assembler.next_frame(),
        Some(Bytes::from_static(&[0, 1, 2, 3]))
    );
    assert_eq!(
        assembler.next_frame(),
        Some(Bytes::from_static(&[4, 5, 6, 7]))
    );
    assert_eq!(assembler.pending_len(), 1);
}

#[test]
fn frame_reports_an_incomplete_final_frame() {
    let mut assembler = FrameAssembler::new(4).unwrap();
    assembler.push(Bytes::from_static(&[1, 2, 3]));

    assert_eq!(
        assembler.finish(),
        Err(FrameError::IncompleteFrame {
            expected: 4,
            actual: 3,
        })
    );
}

#[test]
fn frame_accepts_a_body_ending_on_a_frame_boundary() {
    let mut assembler = FrameAssembler::new(4).unwrap();
    assembler.push(Bytes::from_static(&[1, 2, 3, 4]));
    assert!(assembler.next_frame().is_some());
    assert_eq!(assembler.finish(), Ok(()));
}

#[test]
fn decrypts_and_authenticates_a_frame() {
    let key = DecryptKey::new([7; 32]);
    let decoder = FrameDecoder::new(24, &key).unwrap();
    let frame = encrypt(&[7; 32], 3, b"payload!");

    assert_eq!(decoder.decode_frame(frame, 3).unwrap(), &b"payload!"[..]);
}

#[test]
fn rejects_a_wrong_key_or_tag() {
    let decoder = FrameDecoder::new(24, &DecryptKey::new([8; 32])).unwrap();
    assert_eq!(
        decoder.decode_frame(encrypt(&[7; 32], 3, b"payload!"), 3),
        Err(FrameError::AuthenticationFailed)
    );

    let decoder = FrameDecoder::new(24, &DecryptKey::new([7; 32])).unwrap();
    let mut frame = encrypt(&[7; 32], 3, b"payload!");
    frame[0] ^= 1;
    assert_eq!(
        decoder.decode_frame(frame, 3),
        Err(FrameError::AuthenticationFailed)
    );
}

#[test]
fn redacts_decryption_keys() {
    assert_eq!(
        DecryptKey::new([7; 32]).debug_text(),
        "DecryptKey([REDACTED])"
    );
}

#[test]
fn encoded_frames_decode_to_their_payload() {
    let key = DecryptKey::new([9; 32]);
    let encoder = FrameEncoder::new(24, &key).unwrap();
    let decoder = FrameDecoder::new(24, &key).unwrap();
    let index = 0x0102_0304_0506_0708;
    let frame = encoder
        .encode_frame(BytesMut::from(&b"payload!"[..]), index)
        .unwrap();
    assert_eq!(frame.len(), 24);
    assert_eq!(&frame[..], &encrypt(&[9; 32], index, b"payload!")[..]);
    assert_eq!(
        decoder.decode_frame(BytesMut::from(&frame[..]), index).unwrap(),
        &b"payload!"[..]
    );
    assert_eq!(
        decoder.decode_frame(BytesMut::from(&frame[..]), index + 1),
        Err(FrameError::AuthenticationFailed)
    );
}

#[test]
fn rejects_frames_of_other_sizes() {
    assert_eq!(
        FrameAssembler::new(0).err(),
        Some(FrameError::ZeroFrameSize)
    );
    let key = DecryptKey::new([1; 32]);
    assert_eq!(
        FrameDecoder::new(16, &key).err(),
        Some(FrameError::FrameTooSmall)
    );
    assert_eq!(
        FrameEncoder::new(16, &key).err(),
        Some(FrameError::FrameTooSmall)
    );
    let decoder = FrameDecoder::new(24, &key).unwrap();
    assert_eq!(
        decoder.decode_frame(BytesMut::from(&b"short"[..]), 0),
        Err(FrameError::InvalidFrameSize {
            expected: 24,
            actual: 5,
        })
    );
    let encoder = FrameEncoder::new(24, &key).unwrap();
    assert_eq!(
        encoder.encode_frame(BytesMut::from(&b"123456789"[..]), 0),
        Err(FrameError::InvalidFrameSize {
            expected: 8,
            actual: 9,
        })
    );
}

#[test]
fn describes_frame_errors() {
    assert_eq!(
        FrameError::InvalidFrameSize {
            expected: 24,
            actual: 5
        }
        .message(),
        "invalid frame size: expected 24 bytes, got 5"
    );
    assert_eq!(
        FrameError::IncompleteFrame {
            expected: 4,
            actual: 3
        }
        .message(),
        "HTTP body ended with an incomplete frame: expected 4 bytes, got 3"
    );
    assert_eq!(
        FrameError::UnexpectedPayloadSize {
            expected: 8,
            actual: 10
        }
        .message(),
        "decoded frame has 10 bytes; expected 8"
    );
    assert_eq!(
        FrameError::FrameOutsidePlan { frame_index: 105 }.message(),
        "frame 105 is outside this object read plan"
    );
    assert_eq!(
        FrameError::ZeroFrameSize.message(),
        "frame size must be greater than zero"
    );
    assert_eq!(
        FrameError::FrameTooSmall.message(),
        "frame size must be greater than the 16-byte tag"
    );
    assert_eq!(
        FrameError::AuthenticationFailed.message(),
        "frame authentication failed"
    );
}

fn download(body: &[u8], frames: std::ops::Range<u32>) -> Result<Vec<Bytes>, DownloadError> {
    let key = DecryptKey::new([7; 32]);
    let mut download = FrameDownload::new(24, &key, frames)?;
    let mut output = Vec::new();
    for chunk in body.chunks(5) {
        download.push(Bytes::copy_from_slice(chunk));
        while let Some(frame) = download.next_frame()? {
            output.push(frame);
        }
    }
    download.finish()?;
    Ok(output)
}

fn two_frames() -> Vec<u8> {
    let mut body = Vec::new();
    body.extend_from_slice(&encrypt(&[7; 32], 0, b"frame-0!"));
    body.extend_from_slice(&encrypt(&[7; 32], 1, b"frame-1!"));
    body
}

#[test]
fn decrypting_backend_maps_ranges_and_assembles_chunks() {
    let body = two_frames();
    let range = physical_range(1..2, 24).unwrap();
    assert_eq!(range, 24..48);
    let frames = download(&body[range.start as usize..range.end as usize], 1..2).unwrap();
    assert_eq!(frames, [Bytes::from_static(b"frame-1!")]);
}

#[test]
fn decrypting_backend_rejects_an_incomplete_response() {
    let mut body = two_frames();
    body.pop();
    let range = physical_range(1..2, 24).unwrap();
    let end = (range.end as usize).min(body.len());
    let error = download(&body[range.start as usize..end], 1..2).unwrap_err();
    assert!(error.message().contains("incomplete frame"));
}

#[test]
fn downloads_end_with_their_last_frame() {
    let body = two_frames();
    assert_eq!(
        download(&body, 0..1).unwrap_err(),
        DownloadError::TooManyBytes
    );
    assert_eq!(
        download(&body, 0..3).unwrap_err(),
        DownloadError::EndedEarly
    );
    assert_eq!(
        download(&body, 1..3).unwrap_err(),
        DownloadError::Frame(FrameError::AuthenticationFailed)
    );
    assert_eq!(download(&body, 0..2).unwrap().len(), 2);
    assert_eq!(
        physical_range(0..u32::MAX, usize::MAX),
        Err(DownloadError::PhysicalRangeOverflow)
    );
    assert_eq!(
        DownloadError::TooManyBytes.message(),
        "backend returned more bytes than requested"
    );
    assert_eq!(
        DownloadError::EndedEarly.message(),
        "backend ended before its last requested frame"
    );
    assert_eq!(
        DownloadError::PhysicalRangeOverflow.message(),
        "physical range overflow"
    );
    assert!(FrameDownload::new(16, &DecryptKey::new([7; 32]), 0..1).is_err());
}

#[test]
fn requests_are_never_empty() {
    let request = StreamRequest::new(3..10).unwrap();
    assert_eq!(request.frames(), 3..10);
    assert_eq!(request.frame_count(), 7);
    assert_eq!(
        StreamRequest::new(3..3).unwrap_err(),
        RequestError::EmptyFrameRange
    );
    assert_eq!(
        RequestError::EmptyFrameRange.message(),
        "frame range must not be empty"
    );
    assert_eq!(
        RequestError::InvalidFrameRate.message(),
        "frame rate must be finite and positive"
    );
    assert_eq!(ObjectId::new("object").as_str(), "object");
}

#[test]
fn frames_can_be_taken_as_writable_buffers() {
    let mut assembler = FrameAssembler::new(2).unwrap();
    assembler.push(Bytes::from_static(&[1, 2, 3]));
    assert_eq!(assembler.next_frame_mut(), Some(BytesMut::from(&[1u8, 2][..])));
    assert_eq!(assembler.next_frame_mut(), None);
    assert_eq!(assembler.pending_len(), 1);
}
