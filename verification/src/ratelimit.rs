//! Per-key token buckets, refilled lazily, that follow the limits a server
//! reports. Times are nanoseconds on one monotonic clock; waiting is the
//! caller's part.
use dashmap::DashMap;
use vstd::prelude::*;

use crate::stream::{at_least, at_most};
use crate::text::{chars_of, parse_number, parsed};

verus! {

/// Window used before the server tells the real one.
pub const DEFAULT_WINDOW: u64 = 1_000_000_000;

/// State of one key.
#[derive(Clone, Copy, Debug, PartialEq, Eq, Structural)]
pub struct KeyState {
    pub limit: u32,
    pub remaining: u32,
    /// When the current window resets and `remaining` returns to `limit`.
    pub reset_at: u64,
    /// Earliest time of the next request.
    pub next_allowed_at: u64,
    /// Least time between two requests.
    pub spacing: u64,
}

/// What a server reported after a response.
#[derive(Clone, Copy, Debug, PartialEq, Eq, Structural)]
pub struct LimitReport {
    /// Time until the window resets, where it was told.
    pub reset_after: Option<u64>,
    pub limit: Option<u32>,
    pub remaining: Option<u32>,
    pub too_many_requests: bool,
}

/// The number in a header, where it holds one.
pub open spec fn header_number(value: Option<&str>) -> Option<int> {
    match value {
        Some(text) => parsed(text@, 10, u32::MAX as int),
        None => None,
    }
}

/// Reads the number in a header.
pub fn header_u32(value: Option<&str>) -> (number: Option<u32>)
    ensures
        match number {
            Some(n) => header_number(value) == Some(n as int),
            None => header_number(value) is None,
        },
{
    match value {
        None => None,
        Some(text) => {
            let chars: Vec<char> = chars_of(text);
            match parse_number(chars.as_slice(), 10, u32::MAX as u64) {
                Some(n) => Some(n as u32),
                None => None,
            }
        },
    }
}

/// Reads what a response reports. The windows are the times until the limit
/// resets and until a retry, where they were told; the first counts before the
/// second.
pub fn limit_report(
    limit: Option<&str>,
    remaining: Option<&str>,
    reset_after: Option<u64>,
    retry_after: Option<u64>,
    status: u16,
) -> (report: LimitReport)
    ensures
        match report.limit {
            Some(n) => header_number(limit) == Some(n as int),
            None => header_number(limit) is None,
        },
        match report.remaining {
            Some(n) => header_number(remaining) == Some(n as int),
            None => header_number(remaining) is None,
        },
        report.reset_after == (if reset_after is Some {
            reset_after
        } else {
            retry_after
        }),
        report.too_many_requests == (status == 429),
{
    LimitReport {
        reset_after: match reset_after {
            Some(window) => Some(window),
            None => retry_after,
        },
        limit: header_u32(limit),
        remaining: header_u32(remaining),
        too_many_requests: status == 429,
    }
}

/// The state of a key that was never seen: optimistic, so that a guess never
/// holds `remaining` down.
pub open spec fn fresh_key(now: u64) -> KeyState {
    KeyState {
        limit: u32::MAX,
        remaining: u32::MAX,
        reset_at: now,
        next_allowed_at: now,
        spacing: 0,
    }
}

impl KeyState {
    /// The state after the window that ended was renewed.
    pub open spec fn renewed(self, now: u64) -> KeyState {
        if now >= self.reset_at {
            KeyState {
                remaining: self.limit,
                reset_at: (now + DEFAULT_WINDOW) as u64,
                ..self
            }
        } else {
            self
        }
    }

    /// How long a request has to wait.
    pub open spec fn wait(self, now: u64) -> int {
        let spaced = at_least(self.next_allowed_at - now, 0);
        if self.remaining == 0 {
            at_least(spaced, self.reset_at - now)
        } else {
            spaced
        }
    }

    /// The state after one token was taken.
    pub open spec fn taken(self, now: u64) -> KeyState {
        KeyState {
            remaining: at_least(self.remaining - 1, 0) as u32,
            next_allowed_at: (now + self.spacing) as u64,
            ..self
        }
    }

    /// The clock has room for a request at `now`.
    pub open spec fn fits(self, now: u64) -> bool {
        now + DEFAULT_WINDOW <= u64::MAX && now + self.spacing <= u64::MAX
    }

    /// The state after what a server reported.
    pub open spec fn told(self, report: LimitReport, now: u64) -> KeyState {
        let timed = match report.reset_after {
            Some(window) => {
                let state = KeyState { reset_at: (now + window) as u64, ..self };
                match report.limit {
                    Some(limit) => {
                        let effective = at_least(limit as int, 1);
                        KeyState {
                            limit: effective as u32,
                            spacing: (window as int / effective) as u64,
                            ..state
                        }
                    },
                    None => state,
                }
            },
            None => self,
        };
        if report.too_many_requests {
            KeyState { remaining: 0, ..timed }
        } else {
            match report.remaining {
                Some(remaining) => KeyState {
                    remaining: at_most(timed.remaining as int, remaining as int) as u32,
                    ..timed
                },
                None => timed,
            }
        }
    }

    pub fn new(now: u64) -> (state: KeyState)
        ensures
            state == fresh_key(now),
    {
        KeyState {
            limit: u32::MAX,
            remaining: u32::MAX,
            reset_at: now,
            next_allowed_at: now,
            spacing: 0,
        }
    }

    /// Takes one token, or says how long to wait before asking again.
    pub fn acquire(&mut self, now: u64) -> (wait: Option<u64>)
        requires
            old(self).fits(now),
        ensures
            ({
                let state = old(self).renewed(now);
                match wait {
                    None => state.wait(now) == 0 && *final(self) == state.taken(now),
                    Some(time) => {
                        &&& time > 0
                        &&& time == state.wait(now)
                        &&& *final(self) == state
                    },
                }
            }),
    {
        if now >= self.reset_at {
            self.remaining = self.limit;
            self.reset_at = now + DEFAULT_WINDOW;
        }
        let mut wait: u64 = self.next_allowed_at.saturating_sub(now);
        if self.remaining == 0 {
            let reset: u64 = self.reset_at.saturating_sub(now);
            if reset > wait {
                wait = reset;
            }
        }
        if wait == 0 {
            self.remaining = self.remaining.saturating_sub(1);
            self.next_allowed_at = now + self.spacing;
            None
        } else {
            Some(wait)
        }
    }

    /// Follows what a server reported. Within a window `remaining` only shrinks,
    /// so that tokens taken meanwhile are never handed back.
    pub fn update(&mut self, report: LimitReport, now: u64)
        requires
            report.reset_after matches Some(window) ==> now + window <= u64::MAX,
        ensures
            *final(self) == old(self).told(report, now),
    {
        if let Some(window) = report.reset_after {
            self.reset_at = now + window;
            if let Some(limit) = report.limit {
                self.limit = if limit >= 1 { limit } else { 1 };
                self.spacing = window / self.limit as u64;
            }
        }
        if report.too_many_requests {
            self.remaining = 0;
        } else if let Some(remaining) = report.remaining {
            if remaining < self.remaining {
                self.remaining = remaining;
            }
        }
    }
}

/// A report never hands tokens back within the window.
pub proof fn law_reports_never_over_credit(state: KeyState, report: LimitReport, now: u64)
    ensures
        state.told(report, now).remaining <= state.remaining,
        report.remaining matches Some(remaining) ==> state.told(report, now).remaining
            <= remaining,
        report.too_many_requests ==> state.told(report, now).remaining == 0,
{
}

/// Without a token a key waits for the reset of its window.
pub proof fn law_empty_key_waits_for_the_reset(state: KeyState, now: u64)
    requires
        state.remaining == 0,
        now < state.reset_at,
    ensures
        state.renewed(now) == state,
        state.wait(now) >= state.reset_at - now,
{
}

/// Two requests of one key are at least the spacing apart.
pub proof fn law_requests_keep_the_spacing(state: KeyState, first: u64, second: u64)
    requires
        state.fits(first),
        first <= second,
        state.taken(first).renewed(second).wait(second) == 0,
    ensures
        second - first >= state.spacing,
{
}

/// The spacing promise: after a report with a window and a limit, the requests
/// that the limit counts spread over the window that was told. The spacing is the
/// most that lets all of them fit.
pub proof fn law_requests_spread_over_the_window(
    state: KeyState,
    report: LimitReport,
    now: u64,
    window: u64,
    limit: u32,
)
    requires
        report.reset_after == Some(window),
        report.limit == Some(limit),
        now + window <= u64::MAX,
    ensures
        ({
            let told = state.told(report, now);
            let counted = if limit >= 1 {
                limit as int
            } else {
                1
            };
            &&& told.limit == counted
            &&& told.spacing * counted <= window < (told.spacing + 1) * counted
        }),
{
    let counted = at_least(limit as int, 1);
    let spacing = window as int / counted;
    vstd::arithmetic::div_mod::lemma_fundamental_div_mod(window as int, counted);
    vstd::arithmetic::div_mod::lemma_div_pos_is_pos(window as int, counted);
    assert(spacing * counted <= window < (spacing + 1) * counted) by (nonlinear_arith)
        requires
            window == counted * spacing + window as int % counted,
            0 <= window as int % counted < counted,
    ;
    assert(spacing <= window) by (nonlinear_arith)
        requires
            spacing * counted <= window,
            counted >= 1,
            spacing >= 0,
    ;
}

/// A report resets the window after the time that it tells. Without a time it
/// changes neither window nor limit nor spacing, and without a limit neither limit
/// nor spacing; a report never moves a request that may come already.
pub proof fn law_reports_set_the_window(state: KeyState, report: LimitReport, now: u64)
    requires
        report.reset_after matches Some(window) ==> now + window <= u64::MAX,
    ensures
        state.told(report, now).reset_at == match report.reset_after {
            Some(window) => now + window,
            None => state.reset_at as int,
        },
        report.reset_after is None || report.limit is None ==> {
            &&& state.told(report, now).limit == state.limit
            &&& state.told(report, now).spacing == state.spacing
        },
        state.told(report, now).next_allowed_at == state.next_allowed_at,
{
}

/// A report takes tokens away only where it has to: it leaves those that were
/// counted and those that the server counts, whichever are fewer, and none after
/// too many requests.
pub proof fn law_reports_keep_what_is_left(state: KeyState, report: LimitReport, now: u64)
    ensures
        !report.too_many_requests ==> match report.remaining {
            Some(remaining) => state.told(report, now).remaining == if state.remaining
                <= remaining {
                state.remaining
            } else {
                remaining
            },
            None => state.told(report, now).remaining == state.remaining,
        },
        report.too_many_requests ==> state.told(report, now).remaining == 0,
{
}

/// The wait promise: a request waits until the earliest time from `now` on at
/// which the spacing allows it and a token is there, which without tokens is when
/// the window resets.
pub proof fn law_the_wait_is_the_least(state: KeyState, now: u64, time: int)
    ensures
        state.wait(now) >= 0,
        now + state.wait(now) >= state.next_allowed_at,
        state.remaining == 0 ==> now + state.wait(now) >= state.reset_at,
        time >= now && time >= state.next_allowed_at && (state.remaining > 0 || time
            >= state.reset_at) ==> now + state.wait(now) <= time,
{
}

/// A request takes one token, where there is one, and holds the next one back by
/// the spacing; nothing else changes.
pub proof fn law_a_request_takes_one_token(state: KeyState, now: u64)
    requires
        state.fits(now),
    ensures
        state.remaining > 0 ==> state.taken(now).remaining == state.remaining - 1,
        state.remaining == 0 ==> state.taken(now).remaining == 0,
        state.taken(now).next_allowed_at == now + state.spacing,
        state.taken(now).limit == state.limit,
        state.taken(now).reset_at == state.reset_at,
        state.taken(now).spacing == state.spacing,
{
}

/// When a window has ended, the key has all its tokens again, for a window of one
/// second until the server tells another. Before that nothing changes.
pub proof fn law_windows_renew_the_tokens(state: KeyState, now: u64)
    requires
        now + 1_000_000_000 <= u64::MAX,
    ensures
        now < state.reset_at ==> state.renewed(now) == state,
        now >= state.reset_at ==> {
            &&& state.renewed(now).remaining == state.limit
            &&& state.renewed(now).reset_at == now + 1_000_000_000
        },
        state.renewed(now).limit == state.limit,
        state.renewed(now).spacing == state.spacing,
        state.renewed(now).next_allowed_at == state.next_allowed_at,
{
}

/// A key that was never seen holds no request back: neither the first nor one
/// right behind it.
pub proof fn law_new_keys_do_not_wait(now: u64, first: u64, second: u64)
    requires
        now <= first <= second,
        second + 1_000_000_000 <= u64::MAX,
    ensures
        ({
            let one = fresh_key(now).renewed(first);
            let two = one.taken(first).renewed(second);
            one.fits(first) && one.wait(first) == 0 && two.fits(second) && two.wait(second) == 0
        }),
        fresh_key(now).limit == u32::MAX,
        fresh_key(now).remaining == u32::MAX,
{
}

/// The burst promise of a limit: with the tokens of a window spent, the next
/// request comes no earlier than the window that the server told resets.
pub proof fn law_spent_keys_wait_for_the_told_window(
    state: KeyState,
    report: LimitReport,
    told_at: u64,
    window: u64,
    now: u64,
)
    requires
        report.reset_after == Some(window),
        report.remaining == Some(0u32) || report.too_many_requests,
        told_at + window <= u64::MAX,
        now + 1_000_000_000 <= u64::MAX,
        state.told(report, told_at).renewed(now).wait(now) == 0,
    ensures
        now >= told_at + window,
{
}

/// The sharded map `dashmap::DashMap`.
#[verifier::external_type_specification]
#[verifier::external_body]
#[verifier::reject_recursive_types(K)]
#[verifier::reject_recursive_types(V)]
#[verifier::reject_recursive_types(S)]
pub struct ExDashMap<K, V, S>(dashmap::DashMap<K, V, S>);

/// A key's state as the map holds it, in the order of its fields.
pub type StoredState = (u32, u32, u64, u64, u64);

/// What the map holds under each key.
pub uninterp spec fn stored(map: DashMap<String, StoredState>) -> Map<
    Seq<char>,
    StoredState,
>;

/// `DashMap::new` holds nothing.
#[verifier::external_body]
pub(crate) fn new_map() -> (empty: DashMap<String, StoredState>)
    ensures
        forall|key: Seq<char>| !(#[trigger] stored(empty).contains_key(key)),
{
    DashMap::new()
}

/// `DashMap::get` finds what is held under the key.
#[verifier::external_body]
pub(crate) fn map_get(map: &DashMap<String, StoredState>, key: &str) -> (found: Option<
    StoredState,
>)
    ensures
        found == (if stored(*map).contains_key(key@) {
            Some(stored(*map)[key@])
        } else {
            None
        }),
{
    map.get(key).map(|held| *held)
}

/// `DashMap::insert` holds the value under the key, in place of what was there.
#[verifier::external_body]
pub(crate) fn map_insert(
    map: &mut DashMap<String, StoredState>,
    key: &str,
    value: StoredState,
)
    ensures
        stored(*final(map)) == stored(*old(map)).insert(key@, value),
{
    map.insert(key.to_owned(), value);
}

/// The state that a stored tuple stands for.
pub open spec fn state_of(held: StoredState) -> KeyState {
    KeyState {
        limit: held.0,
        remaining: held.1,
        reset_at: held.2,
        next_allowed_at: held.3,
        spacing: held.4,
    }
}

/// Rate limiter keyed by webhook id, shared by upload and download.
pub struct KeyedRateLimiter {
    keys: DashMap<String, StoredState>,
}

impl View for KeyedRateLimiter {
    type V = Map<Seq<char>, KeyState>;

    closed spec fn view(&self) -> Map<Seq<char>, KeyState> {
        stored(self.keys).map_values(|held: StoredState| state_of(held))
    }
}

/// The state of a key: what is held of it, or that of a key never seen.
pub open spec fn key_state(keys: Map<Seq<char>, KeyState>, id: Seq<char>, now: u64) -> KeyState {
    if keys.contains_key(id) {
        keys[id]
    } else {
        fresh_key(now)
    }
}

/// Keys stand for themselves: what is held of a key counts for it, whatever is
/// held of others; and a key of which nothing is held waits for nothing.
pub proof fn law_keys_are_apart(
    keys: Map<Seq<char>, KeyState>,
    id: Seq<char>,
    other: Seq<char>,
    state: KeyState,
    now: u64,
)
    requires
        now + 1_000_000_000 <= u64::MAX,
    ensures
        key_state(keys.insert(id, state), id, now) == state,
        id != other ==> key_state(keys.insert(id, state), other, now) == key_state(
            keys,
            other,
            now,
        ),
        !keys.contains_key(id) ==> key_state(keys, id, now).renewed(now).wait(now) == 0,
{
}

impl KeyedRateLimiter {
    pub fn new() -> (limiter: KeyedRateLimiter)
        ensures
            limiter@ == Map::<Seq<char>, KeyState>::empty(),
    {
        let limiter: KeyedRateLimiter = KeyedRateLimiter { keys: new_map() };
        assert(limiter@ =~= Map::<Seq<char>, KeyState>::empty());
        limiter
    }

    fn state(&self, id: &str, now: u64) -> (state: KeyState)
        ensures
            state == key_state(self@, id@, now),
    {
        match map_get(&self.keys, id) {
            Some((limit, remaining, reset_at, next_allowed_at, spacing)) => KeyState {
                limit,
                remaining,
                reset_at,
                next_allowed_at,
                spacing,
            },
            None => KeyState::new(now),
        }
    }

    fn store(&mut self, id: &str, state: KeyState)
        ensures
            final(self)@ == old(self)@.insert(id@, state),
    {
        let ghost before = self@;
        map_insert(
            &mut self.keys,
            id,
            (
                state.limit,
                state.remaining,
                state.reset_at,
                state.next_allowed_at,
                state.spacing,
            ),
        );
        assert(self@ =~= before.insert(id@, state));
    }

    /// Takes one token of the key, or says how long to wait before asking again.
    pub fn acquire(&mut self, id: &str, now: u64) -> (wait: Option<u64>)
        requires
            key_state(old(self)@, id@, now).fits(now),
        ensures
            ({
                let state = key_state(old(self)@, id@, now).renewed(now);
                match wait {
                    None => {
                        &&& state.wait(now) == 0
                        &&& final(self)@ == old(self)@.insert(id@, state.taken(now))
                    },
                    Some(time) => {
                        &&& time > 0
                        &&& time == state.wait(now)
                        &&& final(self)@ == old(self)@.insert(id@, state)
                    },
                }
            }),
    {
        let mut state: KeyState = self.state(id, now);
        let wait: Option<u64> = state.acquire(now);
        self.store(id, state);
        wait
    }

    /// Follows what a server reported of the key.
    pub fn update_from_headers(&mut self, id: &str, report: LimitReport, now: u64)
        requires
            report.reset_after matches Some(window) ==> now + window <= u64::MAX,
        ensures
            final(self)@ == old(self)@.insert(
                id@,
                key_state(old(self)@, id@, now).told(report, now),
            ),
    {
        let mut state: KeyState = self.state(id, now);
        state.update(report, now);
        self.store(id, state);
    }
}

} // verus!
