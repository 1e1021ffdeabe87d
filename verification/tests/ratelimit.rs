use frame_store::ratelimit::{
    header_u32, limit_report, KeyState, KeyedRateLimiter, LimitReport,
};

const SECOND: u64 = 1_000_000_000;
const T0: u64 = 500 * SECOND;

fn report(limit: Option<u32>, remaining: Option<u32>, reset_after: Option<u64>) -> LimitReport {
    LimitReport {
        reset_after,
        limit,
        remaining,
        too_many_requests: false,
    }
}

/// Acquires, waiting as long as asked; the answer is the time it took.
fn acquire(limiter: &mut KeyedRateLimiter, id: &str, now: &mut u64) -> u64 {
    let start = *now;
    while let Some(wait) = limiter.acquire(id, *now) {
        *now += wait;
    }
    *now - start
}

#[test]
fn spaces_requests_after_learning_limit() {
    let mut limiter = KeyedRateLimiter::new();
    let mut now = T0;
    // 5 requests / 1s window -> 200ms spacing.
    acquire(&mut limiter, "hook", &mut now);
    limiter.update_from_headers("hook", report(Some(5), Some(4), Some(SECOND)), now);
    acquire(&mut limiter, "hook", &mut now);
    assert_eq!(acquire(&mut limiter, "hook", &mut now), SECOND / 5);
}

#[test]
fn blocks_until_reset_when_remaining_is_zero() {
    let mut limiter = KeyedRateLimiter::new();
    let mut now = T0;
    acquire(&mut limiter, "hook", &mut now);
    limiter.update_from_headers("hook", report(Some(5), Some(0), Some(2 * SECOND)), now);
    assert_eq!(acquire(&mut limiter, "hook", &mut now), 2 * SECOND);
}

#[test]
fn a_429_forces_a_block_until_retry_after() {
    let mut limiter = KeyedRateLimiter::new();
    let mut now = T0;
    acquire(&mut limiter, "hook", &mut now);
    limiter.update_from_headers(
        "hook",
        LimitReport {
            reset_after: Some(3 * SECOND),
            limit: None,
            remaining: None,
            too_many_requests: true,
        },
        now,
    );
    assert_eq!(acquire(&mut limiter, "hook", &mut now), 3 * SECOND);
}

#[test]
fn out_of_order_responses_never_over_credit() {
    let mut limiter = KeyedRateLimiter::new();
    let mut now = T0;
    acquire(&mut limiter, "hook", &mut now);
    limiter.update_from_headers("hook", report(Some(5), Some(0), Some(5 * SECOND)), now);
    limiter.update_from_headers("hook", report(Some(5), Some(4), Some(5 * SECOND)), now);
    assert_eq!(acquire(&mut limiter, "hook", &mut now), 5 * SECOND);
}

#[test]
fn keys_do_not_share_their_limits() {
    let mut limiter = KeyedRateLimiter::new();
    let mut now = T0;
    acquire(&mut limiter, "a", &mut now);
    limiter.update_from_headers("a", report(Some(5), Some(0), Some(5 * SECOND)), now);
    assert_eq!(acquire(&mut limiter, "b", &mut now), 0);
    assert_eq!(acquire(&mut limiter, "a", &mut now), 5 * SECOND);
}

#[test]
fn a_report_without_a_window_changes_no_reset() {
    let mut state = KeyState::new(T0);
    let before = state;
    state.update(report(Some(7), None, None), T0 + 1);
    assert_eq!(state, before);
    state.update(report(Some(7), Some(3), None), T0 + 1);
    assert_eq!(state.remaining, 3);
    assert_eq!(state.reset_at, before.reset_at);
}

#[test]
fn reports_are_read_from_headers() {
    let read = limit_report(Some("5"), Some("4"), Some(SECOND), Some(9), 200);
    assert_eq!(read, report(Some(5), Some(4), Some(SECOND)));
    let refused = limit_report(Some("many"), None, None, Some(9), 429);
    assert_eq!(
        refused,
        LimitReport {
            reset_after: Some(9),
            limit: None,
            remaining: None,
            too_many_requests: true,
        }
    );
    assert_eq!(header_u32(Some("4294967295")), Some(u32::MAX));
    assert_eq!(header_u32(Some("4294967296")), None);
    assert_eq!(header_u32(None), None);
}
