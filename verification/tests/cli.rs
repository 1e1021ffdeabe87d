use bytes::Bytes;
use frame_store::cli::{
    access_key_text, attempt_step, base_url, blocks_message, give_up_message, next_chunk,
    segment_size, total_blocks, upload_name, AttemptStep, SegmentReader, SentBytes,
};

/// Reads one segment of at most `size` bytes.
fn read_segment(source: &mut &[u8], size: usize) -> Option<Bytes> {
    let mut reader = SegmentReader::new(size);
    while reader.wanted() > 0 && !source.is_empty() {
        let taken = reader.wanted().min(source.len()).min(300);
        reader.push(&source[..taken]);
        *source = &source[taken..];
    }
    reader.finish()
}

#[test]
fn reads_full_blocks_then_partial_then_eof() {
    let data = vec![7u8; 2500];
    let mut source = data.as_slice();
    assert_eq!(read_segment(&mut source, 1000).unwrap().len(), 1000);
    assert_eq!(read_segment(&mut source, 1000).unwrap().len(), 1000);
    assert_eq!(read_segment(&mut source, 1000).unwrap().len(), 500);
    assert!(read_segment(&mut source, 1000).is_none());
}

#[test]
fn sizes_segments_and_blocks() {
    assert_eq!(segment_size(65_536), Some(9_828_000));
    assert_eq!(segment_size(16), None);
    assert_eq!(total_blocks(Some(2500), 1000), Some(3));
    assert_eq!(total_blocks(None, 1000), None);
    assert_eq!(blocks_message(2, Some(3)), "2/3 blocks");
    assert_eq!(blocks_message(2, None), "2 blocks");
}

#[test]
fn names_and_addresses() {
    assert_eq!(base_url("http://host:1//"), "http://host:1");
    assert_eq!(base_url("http://host"), "http://host");
    assert_eq!(base_url("///"), "");
    let text = |value: &str| Some(value.to_owned());
    assert_eq!(upload_name(text("asked"), text("file")), "asked");
    assert_eq!(upload_name(None, text("file")), "file");
    assert_eq!(upload_name(None, None), "stream");
    assert_eq!(access_key_text("0a-fZ9"), "SS0A-FZ9");
}

#[test]
fn retries_wait_twice_as_long_each_time() {
    assert_eq!(
        [0, 1, 2, 3].map(|attempt| attempt_step(attempt, false)),
        [
            AttemptStep::Wait(1),
            AttemptStep::Wait(2),
            AttemptStep::Wait(4),
            AttemptStep::GiveUp,
        ]
    );
    assert_eq!(attempt_step(3, true), AttemptStep::Done);
    assert_eq!(
        give_up_message("http://x", "boom"),
        "http://x: failed after 4 attempts: boom"
    );
}

#[test]
fn chunks_cover_a_segment() {
    let bytes = Bytes::from_static(b"abcdefghij");
    let mut offset = 0;
    let mut chunks = Vec::new();
    while let Some(chunk) = next_chunk(&bytes, offset, 4) {
        offset += chunk.len();
        chunks.push(chunk);
    }
    assert_eq!(chunks, ["abcd", "efgh", "ij"]);
    assert_eq!(next_chunk(&Bytes::new(), 0, 4), None);
}

#[test]
fn progress_stays_honest() {
    let mut sent = SentBytes::begin(100);
    sent.chunk(4);
    sent.chunk(3);
    assert_eq!(sent.uploaded, 107);
    assert_eq!(sent.fail(), 100);
    assert_eq!(sent.succeed(10), 110);
}
