use frame_store::quota::{Bucket, Pin, Pool, QuotaEngine, Resource};
use frame_store::quota_handle::{CommitGate, QuotaHandle};

const T0: u64 = 1_000_000_000_000;

fn lane(key: &str, now: u64) -> Resource<String> {
    // webhook 5 @ 2.5/s, channel 30 @ 0.5/s
    Resource::new(
        key.to_owned(),
        vec![
            Bucket::new("webhook", 5, 400_000_000, 0, now),
            Bucket::new("channel", 30, 2_000_000_000, 0, now),
        ],
    )
}

fn ms(a: u64, b: u64) -> i64 {
    (a as i64 - b as i64) / 1_000_000
}

#[test]
fn burst_then_pace_on_one_lane() {
    let mut e = QuotaEngine::new(vec![], vec![Pool::new(vec![lane("w", T0)])]);
    let mut sends = vec![];
    for _ in 0..6 {
        let a = e.claim(&[Pin::Free], T0).unwrap();
        sends.push(ms(a.send_at, T0));
    }
    assert_eq!(&sends[..5], &[0, 0, 0, 0, 0]);
    assert_eq!(sends[5], 400);
}

#[test]
fn channel_takes_over_after_burst() {
    let mut e = QuotaEngine::new(vec![], vec![Pool::new(vec![lane("w", T0)])]);
    let mut last = 0i64;
    for _ in 0..40 {
        let a = e.claim(&[Pin::Free], T0).unwrap();
        last = ms(a.send_at, T0);
    }
    let a = e.claim(&[Pin::Free], T0).unwrap();
    assert_eq!(ms(a.send_at, T0) - last, 2000);
}

#[test]
fn free_selection_is_least_used() {
    let pool = Pool::new(vec![lane("a", T0), lane("b", T0)]);
    let mut e = QuotaEngine::new(vec![], vec![pool]);
    let mut picks: Vec<String> = Vec::new();
    for _ in 0..4 {
        picks.push(e.claim(&[Pin::Free], T0).unwrap().picks[0].clone());
    }
    assert_eq!(picks, vec!["a", "b", "a", "b"]);
}

#[test]
fn capacity_weighted_when_lanes_differ() {
    let weak = Resource::new(
        "weak".to_owned(),
        vec![Bucket::new("webhook", 5, 400_000_000, 0, T0)],
    );
    let strong = Resource::new(
        "strong".to_owned(),
        vec![Bucket::new("webhook", 10, 200_000_000, 0, T0)],
    );
    let mut e = QuotaEngine::new(vec![], vec![Pool::new(vec![weak, strong])]);
    let mut strong_n = 0;
    for _ in 0..30 {
        if e.claim(&[Pin::Free], T0).unwrap().picks[0] == "strong" {
            strong_n += 1;
        }
    }
    assert!(strong_n > 15, "strong picked {strong_n}/30");
}

#[test]
fn shared_global_floors_everyone() {
    let global = Bucket::new("global", 2, 20_000_000, 0, T0);
    let pool = Pool::new(vec![lane("a", T0), lane("b", T0)]);
    let mut e = QuotaEngine::new(vec![global], vec![pool]);
    let s0 = e.claim(&[Pin::Free], T0).unwrap().send_at;
    let s1 = e.claim(&[Pin::Free], T0).unwrap().send_at;
    let s2 = e.claim(&[Pin::Free], T0).unwrap().send_at;
    assert_eq!(ms(s0, T0), 0);
    assert_eq!(ms(s1, T0), 0);
    assert_eq!(ms(s2, T0), 20);
}

#[test]
fn reconcile_only_tightens() {
    let mut e = QuotaEngine::new(vec![], vec![Pool::new(vec![lane("w", T0)])]);
    let before = e.claim(&[Pin::Free], T0).unwrap().send_at;
    e.reconcile(0, &"w".to_owned(), "webhook", 0, 5, T0);
    let after = e.claim(&[Pin::Free], T0).unwrap().send_at;
    assert!(ms(after, T0) > ms(before, T0));
    let pushed = e.claim(&[Pin::Free], T0).unwrap().send_at;
    e.reconcile(0, &"w".to_owned(), "webhook", 5, 5, T0);
    let still = e.claim(&[Pin::Free], T0).unwrap().send_at;
    assert!(ms(still, T0) >= ms(pushed, T0));
}

#[test]
fn fixed_pins_and_dead_resources() {
    let pool = Pool::new(vec![lane("a", T0), lane("b", T0)]);
    let mut e = QuotaEngine::new(vec![], vec![pool]);
    let granted = e
        .claim(&[Pin::Fixed("b".to_owned())], T0)
        .unwrap();
    assert_eq!(granted.picks, vec!["b"]);
    e.set_alive(0, &"b".to_owned(), false);
    assert!(e.claim(&[Pin::Fixed("b".to_owned())], T0).is_none());
    assert!(e.claim(&[Pin::Fixed("missing".to_owned())], T0).is_none());
    for _ in 0..3 {
        assert_eq!(e.claim(&[Pin::Free], T0).unwrap().picks, vec!["a"]);
    }
    e.set_alive(0, &"a".to_owned(), false);
    assert!(e.claim(&[Pin::Free], T0).is_none());
}

#[test]
fn safety_reserves_headroom() {
    // Four of five tokens are left for the burst.
    let careful = Resource::new(1usize, vec![Bucket::new("webhook", 5, 400_000_000, 1, T0)]);
    let mut e = QuotaEngine::new(vec![], vec![Pool::new(vec![careful])]);
    let mut sends = vec![];
    for _ in 0..5 {
        sends.push(ms(e.claim(&[Pin::Free], T0).unwrap().send_at, T0));
    }
    assert_eq!(sends, vec![0, 0, 0, 0, 400]);
}

#[test]
fn release_undoes_a_queued_reservation() {
    let mut e = QuotaEngine::new(
        vec![Bucket::new("global", 1, 1_000, 0, T0)],
        Vec::<Pool<usize>>::new(),
    );
    let first = e.claim(&[], T0).unwrap().send_at;
    let second = e.claim(&[], T0).unwrap().send_at;
    assert_eq!((first, second), (T0, T0 + 1_000));
    e.release(&[]);
    assert_eq!(e.claim(&[], T0).unwrap().send_at, second);
    assert_eq!(e.earliest_commit(&[], T0), T0);
}

#[test]
fn commits_respect_the_rate() {
    let capacity = 3u64;
    let interval = 1_000u64;
    let mut e = QuotaEngine::new(
        vec![Bucket::new("global", capacity as u32, interval, 0, T0)],
        Vec::<Pool<usize>>::new(),
    );
    let mut times = vec![];
    let mut now = T0;
    for _ in 0..10 {
        now = e.earliest_commit(&[], now);
        e.do_commit(&[], now);
        times.push(now);
    }
    assert_eq!(&times[..3], &[T0, T0, T0]);
    for first in 0..times.len() {
        for last in first + 1..times.len() {
            let owed = (last - first) as u64;
            let paid = (times[last] - times[first]) / interval;
            assert!(owed <= paid + capacity - 1);
        }
    }
    assert_eq!(times[9], T0 + 7 * interval);
}

#[test]
fn reservations_queue_up_to_their_deadline() {
    let engine = QuotaEngine::new(
        vec![Bucket::new("global", 1, 1_000, 0, T0)],
        Vec::<Pool<usize>>::new(),
    );
    let mut quota = QuotaHandle::new(engine);
    let mut first = quota.reserve(&[], T0, 500, T0).unwrap();
    assert_eq!(first.expires_at, T0 + 500);
    assert!(quota.reserve(&[], T0 + 999, 500, T0).is_none());
    let mut second = quota.reserve(&[], T0 + 1_000, 500, T0).unwrap();
    assert_eq!(second.expires_at, T0 + 1_500);

    assert_eq!(quota.commit(&mut first, T0), CommitGate::Authorized);
    assert_eq!(quota.commit(&mut second, T0), CommitGate::WaitUntil(T0 + 1_000));
    assert_eq!(quota.commit(&mut second, T0 + 1_000), CommitGate::Authorized);
}

#[test]
fn a_released_reservation_frees_its_place_once() {
    let engine = QuotaEngine::new(
        vec![],
        vec![Pool::new(vec![Resource::new(
            7usize,
            vec![Bucket::new("webhook", 1, 1_000, 0, T0)],
        )])],
    );
    let mut quota = QuotaHandle::new(engine);
    let demand = [Pin::Free];
    let held = quota.reserve(&demand, T0, 10, T0).unwrap();
    assert_eq!(held.picks, vec![7]);
    let mut queued = quota.reserve(&demand, T0 + 1_000, 10, T0).unwrap();
    assert!(quota.reserve(&demand, T0 + 1_000, 10, T0).is_none());
    quota.release(&mut queued);
    quota.release(&mut queued);
    assert!(quota.reserve(&demand, T0 + 1_000, 10, T0).is_some());
    assert!(quota.reserve(&demand, T0 + 1_000, 10, T0).is_none());
}

#[test]
fn an_update_moves_the_gate_of_a_held_reservation() {
    let engine = QuotaEngine::new(
        vec![],
        vec![Pool::new(vec![Resource::new(
            7usize,
            vec![Bucket::new("webhook", 5, 1_000, 0, T0)],
        )])],
    );
    let mut quota = QuotaHandle::new(engine);
    let mut held = quota.reserve(&[Pin::Free], T0, 10, T0).unwrap();
    quota.update(0, &7, "webhook", 0, 5, T0);
    assert_eq!(quota.commit(&mut held, T0), CommitGate::WaitUntil(T0 + 1_000));
    quota.update(0, &7, "channel", 0, 500, T0);
    assert_eq!(quota.commit(&mut held, T0 + 1_000), CommitGate::Authorized);
}

#[test]
fn peeking_changes_nothing_until_it_is_taken() {
    let mut e = QuotaEngine::new(
        vec![],
        vec![Pool::new(vec![
            Resource::new(7usize, vec![Bucket::new("webhook", 1, 1_000, 0, T0)]),
            Resource::new(8usize, vec![Bucket::new("webhook", 1, 3_000, 0, T0)]),
        ])],
    );
    assert_eq!(e.peek_reserve(&[Pin::Free], T0), Some((vec![0], T0)));
    assert_eq!(e.peek_reserve(&[Pin::Free], T0), Some((vec![0], T0)));
    assert_eq!(e.peek_reserve(&[Pin::Fixed(8)], T0), Some((vec![1], T0)));
    assert_eq!(e.peek_reserve(&[Pin::Fixed(9)], T0), None);
    assert_eq!(e.admit_reservation(&[0], T0), vec![7]);
    assert_eq!(e.peek_reserve(&[Pin::Fixed(7)], T0), Some((vec![0], T0 + 1_000)));
    assert_eq!(e.peek_reserve(&[Pin::Free], T0), Some((vec![1], T0)));
}

#[test]
fn the_clock_has_room_until_its_limit() {
    let limit = u64::MAX / 2;
    let e = QuotaEngine::new(
        vec![Bucket::new("global", 1, limit / 4, 0, T0)],
        Vec::<Pool<usize>>::new(),
    );
    assert!(e.has_room(limit, 4));
    assert!(!e.has_room(limit + 1, 4));
    assert!(!e.has_room(T0, 5));
    assert!(QuotaHandle::new(e).has_room(T0, 1));
}

fn shared_engine(capacity: u32, safety: u32) -> QuotaEngine<usize> {
    QuotaEngine::new(
        vec![Bucket::new("global", capacity, 1_000, safety, T0)],
        Vec::<Pool<usize>>::new(),
    )
}

#[test]
fn safety_shortens_the_burst_but_leaves_one() {
    for (capacity, safety, tokens) in [(5, 2, 3), (1, 0, 1), (2, 9, 1), (0, 0, 1)] {
        let mut e = shared_engine(capacity, safety);
        for n in 0..8 {
            let late = (n + 1u64).saturating_sub(tokens);
            assert_eq!(e.claim(&[], T0).unwrap().send_at, T0 + late * 1_000);
        }
    }
}

#[test]
fn the_rate_holds_with_other_calls_in_between() {
    let mut e = QuotaEngine::new(
        vec![Bucket::new("global", 2, 1_000, 0, T0)],
        vec![Pool::new(vec![Resource::new(
            7usize,
            vec![Bucket::new("webhook", 2, 1_000, 0, T0)],
        )])],
    );
    let mut times = vec![];
    let mut now = T0;
    for round in 0..6 {
        let gate = e.earliest_commit(&[0], now);
        let (idxs, at) = e.peek_reserve(&[Pin::Free], now).unwrap();
        e.admit_reservation(&idxs, at);
        assert_eq!(e.earliest_commit(&[0], now), gate);
        if round % 2 == 0 {
            e.release(&idxs);
            assert_eq!(e.earliest_commit(&[0], now), gate);
        }
        e.reconcile(0, &7, "webhook", round % 3, 2, now);
        let later = e.earliest_commit(&[0], now);
        assert!(later >= gate);
        e.reconcile(0, &8, "webhook", 0, 9, now);
        e.reconcile(0, &7, "channel", 0, 9, now);
        assert_eq!(e.earliest_commit(&[0], now), later);
        now = later;
        e.do_commit(&[0], now);
        times.push(now);
    }
    for first in 0..times.len() {
        for last in first + 1..times.len() {
            let owed = (last - first - 1) as u64;
            assert!(times[last] - times[first] >= owed * 1_000);
        }
    }
}

#[test]
fn a_release_undoes_a_queued_admission() {
    let mut e = shared_engine(1, 0);
    e.claim(&[], T0).unwrap();
    let before = e.peek_reserve(&[], T0);
    let (idxs, at) = e.peek_reserve(&[], T0).unwrap();
    e.admit_reservation(&idxs, at);
    assert_ne!(e.peek_reserve(&[], T0), before);
    e.release(&idxs);
    assert_eq!(e.peek_reserve(&[], T0), before);
}

#[test]
fn a_revived_resource_is_as_it_was() {
    let resources = [7usize, 8]
        .map(|key| Resource::new(key, vec![Bucket::new("webhook", 1, 1_000, 0, T0)]));
    let mut e = QuotaEngine::new(vec![], vec![Pool::new(resources.into())]);
    e.set_alive(0, &7, false);
    assert_eq!(e.peek_reserve(&[Pin::Fixed(7)], T0), None);
    assert_eq!(e.peek_reserve(&[Pin::Free], T0), Some((vec![1], T0)));
    e.set_alive(0, &9, false);
    e.set_alive(0, &7, true);
    assert_eq!(e.peek_reserve(&[Pin::Fixed(7)], T0), Some((vec![0], T0)));
    assert_eq!(e.peek_reserve(&[Pin::Free], T0), Some((vec![0], T0)));
    e.set_alive(0, &7, false);
    e.set_alive(0, &8, false);
    assert!(e.claim(&[Pin::Free], T0).is_none());
}
