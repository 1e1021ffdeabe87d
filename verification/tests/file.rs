use std::collections::VecDeque;

use bytes::Bytes;
use frame_store::budget::FrameBudget;
use frame_store::byte::{ByteClipper, ByteRequest};
use frame_store::catalog::{
    attach_segment, cached_url, complete_file, completed_size, confirm_attached, reserve_segment,
    stored_object, valid_after, CatalogError, FileRow, SegmentRow,
};
use frame_store::download::{physical_range, FrameDownload};
use frame_store::frame::TAG_SIZE;
use frame_store::http::{
    check_new_file, content_disposition, plan_download, ApiError, DownloadHead, ServerConfig,
};
use frame_store::request::{DecryptKey, ObjectMeta, StreamRequest};
use frame_store::sizing::WindowSizing;
use frame_store::stream::{DriverStep, Offered, SignedUrl, SinkAnswer, StreamSession};
use frame_store::upload::{
    complete_upload, max_frames_per_segment, ByteUpload, SegmentEncoder, StoredObject,
};

const FRAME_SIZE: usize = 24;
const PAYLOAD_SIZE: usize = FRAME_SIZE - TAG_SIZE;
const NOW: u64 = 1_000_000;

/// A stored segment, with the row of the catalog.
struct Segment {
    id: String,
    key: [u8; 32],
    stored: Vec<u8>,
    frame_count: u32,
    size: u64,
    cached_url: Option<String>,
    cached_until: Option<i64>,
}

/// A file server in memory: it performs what the library decides.
struct Server {
    row: FileRow,
    segments: Vec<Segment>,
    resolves: usize,
}

impl Server {
    fn create(expected_size: u64) -> Result<Server, ApiError> {
        let config = ServerConfig {
            frame_size: FRAME_SIZE,
            max_file_size: 100,
        };
        check_new_file("test.bin", expected_size, &config)?;
        Ok(Server {
            row: FileRow {
                expected_size: expected_size as i64,
                size: None,
                completed_at: None,
            },
            segments: Vec::new(),
            resolves: 0,
        })
    }

    fn row(&self) -> Option<FileRow> {
        Some(self.row)
    }

    fn upload(&mut self, body: &'static str) -> Result<(), CatalogError> {
        reserve_segment(self.row(), 1)?;
        let index = self.segments.len();
        let key = [index as u8 + 1; 32];
        let frames = max_frames_per_segment(2400, FRAME_SIZE);
        let upload = ByteUpload::new(frames, FRAME_SIZE).unwrap();
        let (mut cutter, _) = upload.begin(None).unwrap();
        let mut encoder = SegmentEncoder::new(FRAME_SIZE, &DecryptKey::new(key)).unwrap();
        let mut stored = Vec::new();
        for chunk in body.as_bytes().chunks(3) {
            for frame in cutter.push(&Bytes::from_static(chunk)).unwrap() {
                stored.extend_from_slice(&encoder.encode(&frame).unwrap());
            }
        }
        let end = cutter.finish().unwrap();
        if let Some(frame) = &end.last_frame {
            stored.extend_from_slice(&encoder.encode(frame).unwrap());
        }
        let object = StoredObject {
            uri: format!("memory://{index}"),
            cached_url: None,
        };
        let result = complete_upload(object, Some(end.summary), None).unwrap();
        let used: u64 = self.segments.iter().map(|segment| segment.size).sum();
        attach_segment(self.row(), used as i64, result.plaintext_size)?;
        confirm_attached(1)?;
        self.segments.push(Segment {
            id: index.to_string(),
            key,
            stored,
            frame_count: result.frame_count,
            size: result.plaintext_size,
            cached_url: None,
            cached_until: None,
        });
        Ok(())
    }

    fn complete(&mut self) -> Result<u64, CatalogError> {
        let rows: Vec<SegmentRow> = self
            .segments
            .iter()
            .enumerate()
            .map(|(index, segment)| SegmentRow {
                index: index as i64,
                size: segment.size as i64,
            })
            .collect();
        let size = complete_file(self.row(), 0, &rows, PAYLOAD_SIZE)?;
        self.row.size = Some(size as i64);
        self.row.completed_at = Some(NOW as i64);
        Ok(size)
    }

    fn resolve(&mut self, index: usize) -> SignedUrl {
        let segment = &mut self.segments[index];
        let usable = cached_url(
            segment.cached_url.clone(),
            segment.cached_until,
            valid_after(NOW),
        );
        usable.unwrap_or_else(|| {
            self.resolves += 1;
            segment.cached_url = Some(format!("memory://{index}"));
            segment.cached_until = Some(NOW as i64 + 3600);
            SignedUrl::new(&format!("memory://{index}"), Some(NOW + 3600))
        })
    }

    fn objects(&self) -> VecDeque<ObjectMeta> {
        self.segments
            .iter()
            .map(|segment| {
                stored_object(
                    &segment.id,
                    format!("memory://{}", segment.id),
                    i64::from(segment.frame_count),
                    &segment.key.to_vec(),
                )
                .unwrap()
            })
            .collect()
    }

    fn download(&mut self, range: Option<&str>) -> Result<(DownloadHead, Vec<u8>), ApiError> {
        let size = completed_size(self.row()).map_err(ApiError::catalog)?;
        let plan = plan_download(range, size)?;
        let request = ByteRequest::new(plan.start..plan.end).unwrap();
        let frames = request.frame_request(PAYLOAD_SIZE).unwrap();
        let mut clipper = ByteClipper::for_request(&request, PAYLOAD_SIZE);
        let mut body = Vec::new();
        for frame in self.frames(frames) {
            body.extend_from_slice(&clipper.clip(frame));
        }
        Ok((plan.head, body))
    }

    /// Runs a session over the segments.
    fn frames(&mut self, request: StreamRequest) -> Vec<Bytes> {
        let mut budget = FrameBudget::new(100).unwrap();
        let mut session = StreamSession::new(request, &mut budget, 2).unwrap();
        let mut source = self.objects();
        let mut downloads: Vec<VecDeque<Bytes>> =
            self.segments.iter().map(|_| VecDeque::new()).collect();
        let mut output = Vec::new();
        loop {
            let capacity = session.refresh_allocation(2, &mut budget);
            let window = WindowSizing {
                ready_data_frames: capacity,
                url_prefetch_frames: 1,
            };
            while session.wants_object(window) {
                match source.pop_front() {
                    Some(object) => {
                        session.object_arrived(object).unwrap();
                    }
                    None => session.source_finished(),
                }
            }
            session.authorize(capacity);
            for i in 0..session.plans().len() {
                let index: usize = session.plans()[i].object().id.as_str().parse().unwrap();
                if session.has_ticket(i) {
                    let url = self.resolve(index);
                    session.url_resolved(i, url);
                }
                if let Some(start) = session.open_download(i) {
                    let range = physical_range(start.frames.clone(), FRAME_SIZE).unwrap();
                    let stored = &self.segments[index].stored;
                    let bytes = &stored[range.start as usize..range.end as usize];
                    let key = &start.object.decrypt_key;
                    let mut download = FrameDownload::new(FRAME_SIZE, key, start.frames).unwrap();
                    for chunk in bytes.chunks(7) {
                        download.push(Bytes::copy_from_slice(chunk));
                        while let Some(frame) = download.next_frame().unwrap() {
                            downloads[index].push_back(frame);
                        }
                    }
                    download.finish().unwrap();
                }
                if session.polls_download(i) {
                    match downloads[index].pop_front() {
                        Some(frame) => session.frame_arrived(i, frame).unwrap(),
                        None => session.download_ended(i).unwrap(),
                    }
                }
            }
            session.discard_finished();
            match session.driver_step() {
                DriverStep::Close => {
                    session.close(&mut budget);
                    assert_eq!(budget.available(), 100);
                    return output;
                }
                DriverStep::Offer => {
                    let offered = session.offer(SinkAnswer::Ready, Some(2), &mut budget);
                    if let Offered::Send(frame) = offered {
                        output.push(frame);
                    }
                }
                DriverStep::Flush => {}
            }
        }
    }
}

#[test]
fn downloads_full_file_ranges_and_reuses_cached_urls() {
    let mut server = Server::create(20).unwrap();
    server.upload("abcdefgh").unwrap();
    server.upload("ijk").unwrap();
    assert_eq!(server.complete(), Ok(11));

    let (head, body) = server.download(None).unwrap();
    assert_eq!(
        head,
        DownloadHead {
            status: 200,
            content_length: 11,
            content_range: None,
        }
    );
    assert_eq!(
        content_disposition("test.bin"),
        "attachment; filename=\"test.bin\"; filename*=UTF-8''test.bin"
    );
    assert_eq!(body, b"abcdefghijk");

    let (head, body) = server.download(Some("bytes=2-8")).unwrap();
    assert_eq!(
        head,
        DownloadHead {
            status: 206,
            content_length: 7,
            content_range: Some("bytes 2-8/11".to_owned()),
        }
    );
    assert_eq!(body, b"cdefghi");

    let (_, body) = server.download(Some("bytes=-3")).unwrap();
    assert_eq!(body, b"ijk");
    assert_eq!(server.resolves, 2);

    let error = server.download(Some("bytes=99-")).unwrap_err();
    assert_eq!(error.status, 416);
    assert_eq!(error.content_range, Some("bytes */11".to_owned()));
}

#[test]
fn every_range_of_a_file_of_segments_reads_back() {
    let mut server = Server::create(100).unwrap();
    let bodies = ["abcdefghijklmnop", "qrstuvwx", "yz012"];
    for body in bodies {
        server.upload(body).unwrap();
    }
    assert_eq!(server.complete(), Ok(29));
    let whole = bodies.concat();
    for start in 0..whole.len() {
        for last in start..whole.len() {
            let (_, body) = server
                .download(Some(&format!("bytes={start}-{last}")))
                .unwrap();
            assert_eq!(body, whole.as_bytes()[start..=last]);
        }
    }
}

#[test]
fn segments_inside_a_file_fill_their_frames() {
    let mut server = Server::create(100).unwrap();
    server.upload("short").unwrap();
    server.upload("abcdefgh").unwrap();
    assert_eq!(server.complete(), Err(CatalogError::MisalignedSegment));
    assert_eq!(
        server.download(None).unwrap_err(),
        ApiError::catalog(CatalogError::NotCompleted)
    );
}
