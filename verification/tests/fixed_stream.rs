use std::collections::{HashMap, VecDeque};

use bytes::Bytes;
use frame_store::fixed_stream::{EmptyWindow, StreamConfig, StreamSession};
use frame_store::request::{DecryptKey, ObjectId, ObjectMeta};
use frame_store::stream::StreamError;

fn object(index: usize, frames: u32) -> ObjectMeta {
    ObjectMeta {
        id: ObjectId::new(&format!("object-{index}")),
        uri: format!("objects/{index}"),
        frame_count: frames,
        decrypt_key: DecryptKey::new([0; 32]),
    }
}

fn objects(counts: &[u32]) -> VecDeque<ObjectMeta> {
    counts
        .iter()
        .enumerate()
        .map(|(index, count)| object(index, *count))
        .collect()
}

struct Backend {
    block_first: bool,
    polled: Vec<String>,
    opened: HashMap<String, std::ops::Range<u32>>,
}

enum Round {
    Frame(Bytes),
    Ended,
    Pending,
}

impl Backend {
    fn new(block_first: bool) -> Self {
        Backend {
            block_first,
            polled: Vec::new(),
            opened: HashMap::new(),
        }
    }

    fn poll_next(&mut self, session: &mut StreamSession, source: &mut VecDeque<ObjectMeta>) -> Round {
        while session.wants_object() {
            match source.pop_front() {
                Some(object) => session.object_arrived(object).unwrap(),
                None => session.source_finished(),
            }
        }
        session.authorize();
        for i in 0..session.plans().len() {
            if session.polls_url(i) {
                let object = session.plans()[i].object();
                let id = object.id.as_str().to_owned();
                self.opened.insert(id.clone(), 0..object.frame_count);
                self.polled.push(id);
                session.download_opened(i);
            }
        }
        for i in 0..session.plans().len() {
            if !session.polls_download(i) {
                continue;
            }
            let id = session.plans()[i].object().id.as_str().to_owned();
            if self.block_first && id == "object-0" {
                continue;
            }
            let frame = self
                .opened
                .get_mut(&id)
                .unwrap()
                .next()
                .map(|frame| Bytes::from(format!("{id}:{frame}")));
            session.frame_arrived(i, frame).unwrap();
        }
        if let Some(frame) = session.pop_ready() {
            return Round::Frame(frame);
        }
        if session.is_complete() {
            return Round::Ended;
        }
        Round::Pending
    }

    fn next(&mut self, session: &mut StreamSession, source: &mut VecDeque<ObjectMeta>) -> Option<Bytes> {
        loop {
            match self.poll_next(session, source) {
                Round::Frame(frame) => return Some(frame),
                Round::Ended => return None,
                Round::Pending => {}
            }
        }
    }
}

#[test]
fn fixed_windows_emit_frames_in_object_order() {
    let mut session = StreamSession::new(StreamConfig::new(3, 3).unwrap());
    let mut source = objects(&[2, 2]);
    let mut backend = Backend::new(false);
    let mut frames = Vec::new();
    while let Some(frame) = backend.next(&mut session, &mut source) {
        frames.push(frame);
    }
    assert_eq!(
        frames,
        ["object-0:0", "object-0:1", "object-1:0", "object-1:1"]
    );
}

#[test]
fn buffers_future_objects_without_bypassing_head_of_line() {
    let mut session = StreamSession::new(StreamConfig::new(4, 0).unwrap());
    let mut source = objects(&[2, 2]);
    let mut backend = Backend::new(true);

    assert!(matches!(
        backend.poll_next(&mut session, &mut source),
        Round::Pending
    ));
    assert!(matches!(
        backend.poll_next(&mut session, &mut source),
        Round::Pending
    ));
    assert_eq!(session.plans()[0].buffered_frames(), 0);
    assert_eq!(session.plans()[1].buffered_frames(), 2);
    assert_eq!(session.buffered_frames(), 2);
}

#[test]
fn frames_that_arrive_early_leave_in_source_order() {
    let mut session = StreamSession::new(StreamConfig::new(4, 0).unwrap());
    let mut source = objects(&[2, 2]);
    let mut backend = Backend::new(true);
    while session.buffered_frames() < 2 {
        assert!(matches!(
            backend.poll_next(&mut session, &mut source),
            Round::Pending
        ));
    }
    backend.block_first = false;
    let mut frames = Vec::new();
    while let Some(frame) = backend.next(&mut session, &mut source) {
        frames.push(frame);
    }
    assert_eq!(
        frames,
        ["object-0:0", "object-0:1", "object-1:0", "object-1:1"]
    );
}

#[test]
fn does_not_poll_prefetched_url_without_data_capacity() {
    let mut session = StreamSession::new(StreamConfig::new(1, 3).unwrap());
    let mut source = objects(&[2, 2]);
    let mut backend = Backend::new(true);

    assert!(matches!(
        backend.poll_next(&mut session, &mut source),
        Round::Pending
    ));
    assert_eq!(session.plans().len(), 2);
    assert_eq!(session.plans()[1].authorized_frames(), 0);
    assert_eq!(backend.polled, ["object-0"]);
}

#[test]
fn fixed_capacity_can_change_while_streaming() {
    let mut session = StreamSession::new(StreamConfig::new(1, 0).unwrap());
    let mut source = objects(&[3]);
    let mut backend = Backend::new(false);

    assert_eq!(
        backend.next(&mut session, &mut source).unwrap(),
        "object-0:0"
    );
    session.set_capacity_frames(3).unwrap();
    assert_eq!(
        backend.next(&mut session, &mut source).unwrap(),
        "object-0:1"
    );
    assert_eq!(session.plans()[0].authorized_frames(), 3);
}

#[test]
fn refuses_empty_windows_and_bad_downloads() {
    assert_eq!(StreamConfig::new(0, 3).unwrap_err(), EmptyWindow);
    assert_eq!(
        EmptyWindow.message(),
        "Ready + Data must contain at least one frame"
    );
    let mut session = StreamSession::new(StreamConfig::new(2, 0).unwrap());
    assert_eq!(session.set_capacity_frames(0), Err(EmptyWindow));
    assert_eq!(
        session.object_arrived(object(0, 0)),
        Err(StreamError::EmptyObject)
    );
    session.object_arrived(object(0, 2)).unwrap();
    session.set_prefetch_frames(1);
    assert!(session.wants_object());
    session.authorize();
    session.download_opened(0);
    session
        .frame_arrived(0, Some(Bytes::from_static(b"a")))
        .unwrap();
    assert_eq!(session.frame_arrived(0, None), Err(StreamError::EndedEarly));
}
