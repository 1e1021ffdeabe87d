use std::collections::{HashMap, VecDeque};

use bytes::Bytes;
use frame_store::budget::{FrameBudget, FrameBudgetError};
use frame_store::request::{DecryptKey, ObjectId, ObjectMeta, StreamRequest};
use frame_store::sizing::WindowSizing;
use frame_store::stream::{
    DriverStep, Offered, SignedUrl, SinkAnswer, StreamError, StreamSession,
};

fn object(index: usize, frames: u32) -> ObjectMeta {
    ObjectMeta {
        id: ObjectId::new(&format!("object-{index}")),
        uri: format!("objects/{index}"),
        frame_count: frames,
        decrypt_key: DecryptKey::new([index as u8; 32]),
    }
}

fn objects(counts: &[u32]) -> VecDeque<ObjectMeta> {
    counts
        .iter()
        .enumerate()
        .map(|(index, count)| object(index, *count))
        .collect()
}

/// Performs what a session decides: every URL resolves at once, and every
/// download gives one frame per round.
struct Backend {
    block_first: bool,
    polled_urls: usize,
    opened: HashMap<String, std::ops::Range<u32>>,
}

impl Backend {
    fn new(block_first: bool) -> Self {
        Backend {
            block_first,
            polled_urls: 0,
            opened: HashMap::new(),
        }
    }

    /// One round; the answer is whether the session is complete.
    fn fill(
        &mut self,
        session: &mut StreamSession,
        budget: &mut FrameBudget,
        source: &mut VecDeque<ObjectMeta>,
        desired: usize,
        prefetch: usize,
    ) -> bool {
        let capacity = session.refresh_allocation(desired, budget);
        let window = WindowSizing {
            ready_data_frames: capacity,
            url_prefetch_frames: prefetch,
        };
        while session.wants_object(window) {
            match source.pop_front() {
                Some(object) => {
                    session.object_arrived(object).unwrap();
                }
                None => session.source_finished(),
            }
        }
        session.authorize(capacity);
        for i in 0..session.plans().len() {
            if session.has_ticket(i) {
                self.polled_urls += 1;
                let uri = session.plans()[i].object().uri.clone();
                session.url_resolved(i, SignedUrl::new(&uri, None));
            }
        }
        for i in 0..session.plans().len() {
            if let Some(start) = session.open_download(i) {
                assert_eq!(start.url.as_str(), start.object.uri);
                self.opened
                    .insert(start.object.id.as_str().to_owned(), start.frames);
            }
        }
        for i in 0..session.plans().len() {
            if !session.polls_download(i) {
                continue;
            }
            let id = session.plans()[i].object().id.as_str().to_owned();
            if self.block_first && id == "object-0" {
                continue;
            }
            match self.opened.get_mut(&id).unwrap().next() {
                Some(frame) => {
                    let frame = Bytes::from(format!("{id}:{frame}"));
                    session.frame_arrived(i, frame).unwrap();
                }
                None => session.download_ended(i).unwrap(),
            }
        }
        session.discard_finished();
        session.is_complete()
    }

    fn run(
        &mut self,
        session: &mut StreamSession,
        budget: &mut FrameBudget,
        source: &mut VecDeque<ObjectMeta>,
        desired: usize,
        prefetch: usize,
    ) -> Vec<Bytes> {
        let mut output = Vec::new();
        while !self.fill(session, budget, source, desired, prefetch) {
            if let Some(frame) = session.pop_ready(Some(desired), budget) {
                output.push(frame);
            }
        }
        output
    }
}

fn request(start: u64, end: u64) -> StreamRequest {
    StreamRequest::new(start..end).unwrap()
}

#[test]
fn stream_emits_frames_in_object_order() {
    let mut budget = FrameBudget::new(10).unwrap();
    let mut session = StreamSession::new(request(0, 4), &mut budget, 3).unwrap();
    let frames = Backend::new(false).run(&mut session, &mut budget, &mut objects(&[2, 2]), 3, 3);
    assert_eq!(
        frames,
        ["object-0:0", "object-0:1", "object-1:0", "object-1:1"]
    );
    session.close(&mut budget);
    assert_eq!(budget.available(), 10);
}

#[test]
fn fills_window_while_output_is_backpressured() {
    let mut budget = FrameBudget::new(4).unwrap();
    let mut session = StreamSession::new(request(0, 4), &mut budget, 4).unwrap();
    let mut source = objects(&[2, 2]);
    let mut backend = Backend::new(false);
    assert!(!backend.fill(&mut session, &mut budget, &mut source, 4, 0));
    assert!(!backend.fill(&mut session, &mut budget, &mut source, 4, 0));
    assert_eq!(session.plans()[0].buffered_frames(), 2);
    assert_eq!(session.plans()[1].buffered_frames(), 2);
    assert_eq!(session.buffered_frames(), 4);
}

#[test]
fn polls_prefetched_url_without_opening_its_download() {
    let mut budget = FrameBudget::new(4).unwrap();
    let mut session = StreamSession::new(request(0, 4), &mut budget, 1).unwrap();
    let mut backend = Backend::new(true);
    assert!(!backend.fill(&mut session, &mut budget, &mut objects(&[2, 2]), 1, 3));
    assert_eq!(session.plans().len(), 2);
    assert_eq!(backend.polled_urls, 2);
    assert_eq!(session.plans()[1].authorized_frames(), 0);
    assert!(!backend.opened.contains_key("object-1"));
}

#[test]
fn stream_capacity_can_change_while_streaming() {
    let mut budget = FrameBudget::new(3).unwrap();
    let mut session = StreamSession::new(request(0, 3), &mut budget, 1).unwrap();
    let mut source = objects(&[3]);
    let mut backend = Backend::new(false);
    assert!(!backend.fill(&mut session, &mut budget, &mut source, 1, 0));
    assert_eq!(session.pop_ready(Some(1), &mut budget).unwrap(), "object-0:0");
    assert!(!backend.fill(&mut session, &mut budget, &mut source, 3, 0));
    assert_eq!(session.pop_ready(Some(3), &mut budget).unwrap(), "object-0:1");
    assert_eq!(session.plans()[0].authorized_frames(), 3);
}

#[test]
fn shrinking_waits_for_committed_frames_to_drain() {
    let mut budget = FrameBudget::new(3).unwrap();
    let mut session = StreamSession::new(request(0, 3), &mut budget, 3).unwrap();
    let mut source = objects(&[3]);
    let mut backend = Backend::new(false);
    assert!(!backend.fill(&mut session, &mut budget, &mut source, 3, 0));
    assert_eq!(session.pop_ready(Some(3), &mut budget).unwrap(), "object-0:0");
    assert!(!backend.fill(&mut session, &mut budget, &mut source, 1, 0));
    assert_eq!(session.pop_ready(Some(1), &mut budget).unwrap(), "object-0:1");

    assert_eq!(session.capacity_frames(Some(1)), 1);
    assert_eq!(budget.available(), 2);
}

#[test]
fn requests_only_intersecting_frames() {
    let mut budget = FrameBudget::new(3).unwrap();
    let mut session = StreamSession::new(request(2, 5), &mut budget, 3).unwrap();
    let frames = Backend::new(false).run(&mut session, &mut budget, &mut objects(&[3, 3]), 3, 0);
    assert_eq!(frames, ["object-0:2", "object-1:0", "object-1:1"]);
}

#[test]
fn window_grows_when_another_session_releases_memory() {
    let mut budget = FrameBudget::new(3).unwrap();
    let holder = StreamSession::new(request(0, 2), &mut budget, 2).unwrap();
    let mut waiting = StreamSession::new(request(0, 2), &mut budget, 2).unwrap();
    let mut source = objects(&[2]);
    let mut backend = Backend::new(true);

    assert_eq!(waiting.capacity_frames(Some(2)), 1);
    assert!(!backend.fill(&mut waiting, &mut budget, &mut source, 2, 0));
    assert!(waiting.is_waiting());
    holder.close(&mut budget);
    assert!(!backend.fill(&mut waiting, &mut budget, &mut source, 2, 0));
    assert_eq!(waiting.capacity_frames(Some(2)), 2);
    assert!(!waiting.is_waiting());
}

#[test]
fn the_budget_caps_the_window() {
    let mut budget = FrameBudget::new(2).unwrap();
    let session = StreamSession::new(request(0, 10), &mut budget, 10).unwrap();
    assert_eq!(session.capacity_frames(Some(10)), 2);
    assert_eq!(session.capacity_frames(None), 1);
    assert_eq!(session.allocated_frames(), 2);
    assert_eq!(budget.available(), 0);
    assert_eq!(
        StreamSession::new(request(0, 10), &mut budget, 1).err(),
        Some(FrameBudgetError::Unavailable)
    );
}

#[test]
fn skips_objects_before_the_request() {
    let mut budget = FrameBudget::new(8).unwrap();
    let mut session = StreamSession::new(request(5, 6), &mut budget, 2).unwrap();
    assert_eq!(session.object_arrived(object(0, 5)), Ok(false));
    assert_eq!(session.object_arrived(object(1, 5)), Ok(true));
    assert_eq!(session.plans()[0].local_frames(), 0..1);
    assert!(!session.wants_object(WindowSizing {
        ready_data_frames: 8,
        url_prefetch_frames: 8
    }));
    assert_eq!(session.object_arrived(object(2, 5)), Ok(false));
}

#[test]
fn refuses_bad_objects_and_downloads() {
    let mut budget = FrameBudget::new(8).unwrap();
    let mut session = StreamSession::new(request(0, 2), &mut budget, 8).unwrap();
    assert_eq!(
        session.object_arrived(object(0, 0)),
        Err(StreamError::EmptyObject)
    );
    assert_eq!(session.driver_step(), DriverStep::Flush);
    session.object_arrived(object(0, 2)).unwrap();
    assert_eq!(session.driver_step(), DriverStep::Offer);
    assert_eq!(session.limiting_ticket(), None);
    session.authorize(8);
    assert_eq!(session.limiting_ticket(), Some(0));
    session.url_resolved(0, SignedUrl::new("url", Some(7)));
    assert_eq!(session.limiting_ticket(), None);
    assert_eq!(session.open_download(0).unwrap().url.expires_at(), Some(7));
    assert!(session.open_download(0).is_none());
    session.frame_arrived(0, Bytes::from_static(b"a")).unwrap();
    assert_eq!(session.download_ended(0), Err(StreamError::EndedEarly));
    session.frame_arrived(0, Bytes::from_static(b"b")).unwrap();
    assert_eq!(
        session.frame_arrived(0, Bytes::from_static(b"c")),
        Err(StreamError::TooManyFrames)
    );
    session.download_ended(0).unwrap();
    assert_eq!(session.pop_ready(None, &mut budget).unwrap(), "a");
    assert!(!session.is_complete());
    assert_eq!(session.pop_ready(None, &mut budget).unwrap(), "b");
    assert!(session.pop_ready(None, &mut budget).is_none());
    assert!(session.is_complete());
    assert_eq!(session.driver_step(), DriverStep::Close);
    assert_eq!(StreamError::EmptyObject.message(), "object contains no frames");
    assert_eq!(
        StreamError::FrameIndexOverflow.message(),
        "global frame index overflow"
    );
    assert_eq!(
        StreamError::TooManyFrames.message(),
        "object returned more frames than requested"
    );
    assert_eq!(
        StreamError::EndedEarly.message(),
        "object ended before its last frame"
    );
}

#[test]
fn a_failed_url_leaves_the_download_closed() {
    let mut budget = FrameBudget::new(8).unwrap();
    let mut session = StreamSession::new(request(0, 2), &mut budget, 8).unwrap();
    session.object_arrived(object(0, 2)).unwrap();
    session.authorize(2);
    session.url_failed(0);
    assert!(!session.has_ticket(0));
    assert!(session.open_download(0).is_none());
    assert!(!session.polls_download(0));
}

#[test]
fn frames_leave_only_when_the_output_is_ready() {
    let mut budget = FrameBudget::new(4).unwrap();
    let mut session = StreamSession::new(request(1, 4), &mut budget, 3).unwrap();
    let mut source = objects(&[2, 1, 2]);
    let mut backend = Backend::new(false);
    let answers = [SinkAnswer::Pending, SinkAnswer::Ready, SinkAnswer::Failed];
    let mut sent = Vec::new();
    let mut round = 0;
    while !backend.fill(&mut session, &mut budget, &mut source, 3, 3) {
        let buffered = session.buffered_frames();
        let answer = answers[round % 3];
        match session.offer(answer, Some(3), &mut budget) {
            Offered::Send(frame) => {
                assert_eq!(answer, SinkAnswer::Ready);
                assert_eq!(session.buffered_frames(), buffered - 1);
                sent.push(frame);
            }
            Offered::Nothing => {
                assert_ne!(answer, SinkAnswer::Failed);
                assert_eq!(session.buffered_frames(), buffered);
            }
            Offered::Stop => {
                assert_eq!(answer, SinkAnswer::Failed);
                assert_eq!(session.buffered_frames(), buffered);
            }
        }
        round += 1;
    }
    assert_eq!(sent, ["object-0:1", "object-1:0", "object-2:0"]);
    assert_eq!(session.driver_step(), DriverStep::Close);
}
