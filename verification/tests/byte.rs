use aes_gcm::aead::{AeadInPlace, KeyInit};
use aes_gcm::{Aes256Gcm, Nonce};
use bytes::Bytes;
use frame_store::byte::{div_ceil, ByteClipper, ByteError, ByteRequest, ByteStreamConfig};
use frame_store::download::{physical_range, FrameDownload};
use frame_store::request::DecryptKey;

fn encrypt(key: [u8; 32], index: u64, payload: &[u8]) -> Vec<u8> {
    let cipher = Aes256Gcm::new(&key.into());
    let mut ciphertext = payload.to_vec();
    let mut nonce = [0; 12];
    nonce[4..].copy_from_slice(&index.to_be_bytes());
    let tag = cipher
        .encrypt_in_place_detached(Nonce::from_slice(&nonce), b"", &mut ciphertext)
        .unwrap();
    let mut frame = Vec::from(tag.as_slice());
    frame.extend(ciphertext);
    frame
}

#[test]
fn maps_and_clips_an_unaligned_byte_range() {
    let key = [4; 32];
    let mut body = Vec::new();
    body.extend(encrypt(key, 0, b"abcdefgh"));
    body.extend(encrypt(key, 1, b"ijklmnop"));
    body.extend(encrypt(key, 2, b"qrstuvwx"));
    let config = ByteStreamConfig::new(24, 3).unwrap();
    assert_eq!(config.frame_size(), 24);
    assert_eq!(config.frames_per_object(), 3);
    assert_eq!(config.payload_size(), 8);
    let request = ByteRequest::new(3..19).unwrap();
    assert_eq!(request.bytes(), 3..19);
    let frames = request.frame_request(config.payload_size()).unwrap().frames();
    assert_eq!(frames, 0..3);

    let local = frames.start as u32..frames.end as u32;
    let range = physical_range(local.clone(), config.frame_size()).unwrap();
    assert_eq!(range, 0..72);

    let mut download = FrameDownload::new(24, &DecryptKey::new(key), local).unwrap();
    let mut clipper = ByteClipper::for_request(&request, config.payload_size());
    let mut output = Vec::new();
    for chunk in body[range.start as usize..range.end as usize].chunks(5) {
        download.push(Bytes::copy_from_slice(chunk));
        while let Some(frame) = download.next_frame().unwrap() {
            output.extend_from_slice(&clipper.clip(frame));
        }
    }
    download.finish().unwrap();
    assert_eq!(output, b"defghijklmnopqrs");
}

#[test]
fn keeps_an_aligned_payload_unchanged() {
    let mut clipper = ByteClipper::new(0, 8);
    assert_eq!(clipper.clip(Bytes::from_static(b"abcdefgh")), "abcdefgh");
}

#[test]
fn clips_join_to_the_requested_bytes() {
    let body: Vec<u8> = (0..40).collect();
    for start in 0..40u64 {
        for end in start + 1..=40 {
            let request = ByteRequest::new(start..end).unwrap();
            let frames = request.frame_request(8).unwrap().frames();
            let mut clipper = ByteClipper::for_request(&request, 8);
            let mut output = Vec::new();
            for frame in frames {
                let at = frame as usize * 8;
                let frame = Bytes::copy_from_slice(&body[at..at + 8]);
                output.extend_from_slice(&clipper.clip(frame));
            }
            assert_eq!(output, &body[start as usize..end as usize]);
        }
    }
}

#[test]
fn refuses_empty_ranges_and_bad_frames() {
    assert_eq!(ByteRequest::new(4..4).unwrap_err(), ByteError::EmptyRange);
    assert_eq!(
        ByteStreamConfig::new(16, 3).unwrap_err(),
        ByteError::FrameTooSmall
    );
    assert_eq!(
        ByteStreamConfig::new(24, 0).unwrap_err(),
        ByteError::ZeroFramesPerObject
    );
    assert_eq!(ByteError::EmptyRange.message(), "byte range must not be empty");
    assert_eq!(
        ByteError::ZeroFramesPerObject.message(),
        "frames per object must be positive"
    );
    assert_eq!((div_ceil(16, 8), div_ceil(17, 8), div_ceil(0, 8)), (2, 3, 0));
    assert_eq!(div_ceil(u64::MAX, 1), u64::MAX);
}
