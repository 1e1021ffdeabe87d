use std::collections::VecDeque;

use bytes::Bytes;
use frame_store::request::{DecryptKey, ObjectId, ObjectMeta};
use frame_store::window::{
    PlanZones, RefillStep, SourceEvent, UrlState, WindowAction, WindowConfig, WindowController,
    WindowError,
};

fn object(index: usize, frames: u32) -> ObjectMeta {
    ObjectMeta {
        id: ObjectId::new(&format!("object-{index}")),
        uri: format!("objects/{index}"),
        frame_count: frames,
        decrypt_key: DecryptKey::new([0; 32]),
    }
}

type Source = VecDeque<ObjectMeta>;

fn source(counts: &[u32]) -> Source {
    counts
        .iter()
        .enumerate()
        .map(|(index, count)| object(index, *count))
        .collect()
}

fn refill(window: &mut WindowController, source: &mut Source) -> Vec<WindowAction> {
    let mut refill = window.begin_refill();
    loop {
        match window.refill_step(&mut refill) {
            RefillStep::Done(actions) => return actions,
            RefillStep::Read => {
                let event = match source.pop_front() {
                    Some(object) => SourceEvent::Object(object),
                    None => SourceEvent::Ended,
                };
                window.refill_event(&mut refill, event).unwrap();
            }
        }
    }
}

fn open(config: WindowConfig, source: &mut Source) -> (WindowController, Vec<WindowAction>) {
    let mut window = match WindowController::new(config) {
        Ok(window) => window,
        Err(error) => panic!("{error:?}"),
    };
    let actions = refill(&mut window, source);
    (window, actions)
}

fn pop(window: &mut WindowController, source: &mut Source) -> (Option<Bytes>, Vec<WindowAction>) {
    let frame = window.pop_ready();
    let actions = refill(window, source);
    (frame, actions)
}

#[test]
fn objects_own_their_buffers_and_head_of_line_stays_ordered() {
    let config = WindowConfig::new(6, 0).unwrap();
    let mut source = source(&[3, 3]);
    let (mut window, _) = open(config, &mut source);
    let first = window.plans()[0].object().id.clone();
    let second = window.plans()[1].object().id.clone();
    window.url_ready(&first).unwrap();
    window.url_ready(&second).unwrap();

    window
        .frame_ready(&second, Bytes::from_static(b"future"))
        .unwrap();
    assert_eq!(window.ready_frames(), 0);
    assert_eq!(window.plans()[1].buffered_frames(), 1);

    window
        .frame_ready(&first, Bytes::from_static(b"current"))
        .unwrap();
    assert_eq!(window.ready_frames(), 1);
    assert_eq!(pop(&mut window, &mut source).0.unwrap(), "current");
}

#[test]
fn one_object_is_intersected_instead_of_copied_between_zones() {
    let config = WindowConfig::new(3, 3).unwrap();
    let (mut window, _) = open(config, &mut source(&[3, 3]));
    let first = window.plans()[0].object().id.clone();
    window.url_ready(&first).unwrap();
    window
        .frame_ready(&first, Bytes::from_static(b"0"))
        .unwrap();
    window
        .frame_ready(&first, Bytes::from_static(b"1"))
        .unwrap();

    assert_eq!(
        window.plan_zones(&first),
        Some(PlanZones {
            ready: Some(0..2),
            data: Some(2..3),
            prefetch: None,
        })
    );
}

#[test]
fn sliding_authorizes_the_next_object_and_resize_drains() {
    let config = WindowConfig::new(3, 3).unwrap();
    let mut source = source(&[3, 3]);
    let (mut window, _) = open(config, &mut source);
    let first = window.plans()[0].object().id.clone();
    let second = window.plans()[1].object().id.clone();
    window.url_ready(&first).unwrap();
    window.url_ready(&second).unwrap();
    for value in 0..3 {
        window
            .frame_ready(&first, Bytes::from(vec![value]))
            .unwrap();
    }

    let (_, actions) = pop(&mut window, &mut source);
    assert!(matches!(
        actions.as_slice(),
        [WindowAction::OpenDownload {
            object_id,
            authorized_local_end: 1,
        }] if *object_id == second
    ));

    window.set_capacity_frames(1).unwrap();
    refill(&mut window, &mut source);
    assert_eq!(window.boundaries().data_end, 4);
    pop(&mut window, &mut source);
    pop(&mut window, &mut source);
    assert_eq!(window.boundaries().data_end, 4);

    window
        .frame_ready(&second, Bytes::from_static(b"next"))
        .unwrap();
    let (_, actions) = pop(&mut window, &mut source);
    assert_eq!(window.boundaries().data_end, 5);
    assert!(matches!(
        actions.as_slice(),
        [WindowAction::AdvanceDownload {
            object_id,
            authorized_local_end: 2,
        }] if *object_id == second
    ));
}

#[test]
fn source_is_only_consumed_to_the_prefetch_horizon() {
    let config = WindowConfig::new(3, 3).unwrap();
    let mut source = source(&[3, 3, 3]);
    let (window, actions) = open(config, &mut source);

    assert_eq!(window.plans().len(), 2);
    assert_eq!(actions.len(), 2);
    assert_eq!(window.boundaries().planned_until, 6);
    assert_eq!(source.len(), 1);
}

#[test]
fn refuses_bad_objects_and_frames() {
    assert_eq!(
        WindowConfig::new(0, 3).unwrap_err(),
        WindowError::ZeroCapacity
    );
    let mut window = open(WindowConfig::new(2, 0).unwrap(), &mut source(&[3])).0;
    let first = window.plans()[0].object().id.clone();
    assert_eq!(
        window.push_object(object(7, 0)).unwrap_err(),
        WindowError::EmptyObject(ObjectId::new("object-7"))
    );
    assert_eq!(
        window.push_object(object(0, 1)).unwrap_err(),
        WindowError::DuplicateObject(first.clone())
    );
    let missing = ObjectId::new("missing");
    assert_eq!(
        window.url_ready(&missing).unwrap_err(),
        WindowError::UnknownObject(missing.clone())
    );
    assert_eq!(
        window.url_failed(&missing).unwrap_err(),
        WindowError::UnknownObject(missing.clone())
    );
    assert_eq!(
        window.frame_ready(&first, Bytes::new()).unwrap_err(),
        WindowError::DownloadNotOpen(first.clone())
    );
    window.url_ready(&first).unwrap();
    for _ in 0..2 {
        window.frame_ready(&first, Bytes::new()).unwrap();
    }
    assert_eq!(
        window.frame_ready(&first, Bytes::new()).unwrap_err(),
        WindowError::FrameNotAuthorized {
            object_id: first.clone(),
            local_frame: 2,
            authorized_local_end: 2,
        }
    );
    assert_eq!(
        window.set_capacity_frames(0).unwrap_err(),
        WindowError::ZeroCapacity
    );
    window.url_failed(&first).unwrap();
    assert_eq!(window.plans()[0].url_state(), UrlState::Failed);
    assert!(window.plan_zones(&missing).is_none());
}

#[test]
fn describes_window_errors() {
    let id = ObjectId::new("x");
    let cases: Vec<(WindowError<()>, &str)> = vec![
        (WindowError::Source(()), "object source failed: boom"),
        (
            WindowError::ZeroCapacity,
            "Ready + Data must contain at least one frame",
        ),
        (
            WindowError::EmptyObject(id.clone()),
            "object x contains no frames",
        ),
        (WindowError::DuplicateObject(id.clone()), "duplicate object x"),
        (WindowError::UnknownObject(id.clone()), "unknown object x"),
        (
            WindowError::DownloadNotOpen(id.clone()),
            "download x is not open",
        ),
        (
            WindowError::FrameNotAuthorized {
                object_id: id,
                local_frame: 4,
                authorized_local_end: 3,
            },
            "object x frame 4 is beyond authorized end 3",
        ),
        (WindowError::FrameIndexOverflow, "global frame index overflow"),
    ];
    for (error, text) in cases {
        assert_eq!(error.message("boom"), text);
    }
}

#[test]
fn zones_follow_each_other() {
    let mut source = source(&[3, 3, 3]);
    let (mut window, actions) = open(WindowConfig::new(2, 4).unwrap(), &mut source);
    assert_eq!(
        actions,
        vec![
            WindowAction::FetchUrl {
                object_id: ObjectId::new("object-0")
            },
            WindowAction::FetchUrl {
                object_id: ObjectId::new("object-1")
            },
        ]
    );
    let first = ObjectId::new("object-0");
    assert_eq!(
        window.url_ready(&first).unwrap(),
        vec![WindowAction::OpenDownload {
            object_id: first.clone(),
            authorized_local_end: 2,
        }]
    );
    window.frame_ready(&first, Bytes::from_static(b"0")).unwrap();
    let bounds = window.boundaries();
    assert_eq!(
        (bounds.sent, bounds.ready_until, bounds.data_end, bounds.prefetch_end),
        (0, 1, 2, 6)
    );
    assert_eq!(window.plans()[0].global_frames(), 0..3);
    assert_eq!(window.plans()[1].global_frames(), 3..6);
    assert_eq!(window.plans()[0].authorized_local_end(), 2);
    assert_eq!(window.plans()[0].next_received_local(), 1);
    assert_eq!(window.plans()[0].next_emitted_local(), 0);
    assert_eq!(window.buffered_frames(), 1);
    assert_eq!(window.capacity_frames(), 2);
    let actions = window.schedule_downloads();
    assert!(actions.is_empty());
    assert_eq!(window.pop_ready().unwrap(), "0");
    assert_eq!(window.pop_ready(), None);
    assert_eq!(
        window.schedule_downloads(),
        vec![WindowAction::AdvanceDownload {
            object_id: first,
            authorized_local_end: 3,
        }]
    );
    window.set_prefetch_frames(0);
    assert_eq!(window.boundaries().prefetch_end, 3);
    assert!(!window.wants_object(window.boundaries().prefetch_end));
    window.source_finished();
    assert!(!window.wants_object(u64::MAX));
}

#[test]
fn frames_leave_in_the_order_of_the_source() {
    let mut source = source(&[2, 1, 2]);
    let config = WindowConfig::new(5, 5).unwrap();
    let (mut window, _) = open(config, &mut source);
    for index in 0..3 {
        window.url_ready(&ObjectId::new(&format!("object-{index}"))).unwrap();
    }
    for (index, local) in [(2, 0), (1, 0), (0, 0), (2, 1), (0, 1)] {
        let id = ObjectId::new(&format!("object-{index}"));
        window.frame_ready(&id, Bytes::from(format!("{index}:{local}"))).unwrap();
    }
    let mut frames = Vec::new();
    while let (Some(frame), _) = pop(&mut window, &mut source) {
        frames.push(frame);
    }
    assert_eq!(frames, ["0:0", "0:1", "1:0", "2:0", "2:1"]);
}
