//! Storing segments as webhook attachments: the settings of a store, the quota
//! it works under, and what each response means.
use bytes::Bytes;
use vstd::prelude::*;

use crate::frame::TAG_SIZE;
use crate::quota::{
    bucket_views, is_reading, keyed_reconcile_fits, Bucket, BucketView, EngineView,
    Pool, QuotaEngine, Resource, ResourceView,
};
use crate::quota_handle::QuotaHandle;
use crate::quota_laws::law_a_reading_is_a_debt;
use crate::ratelimit::{header_number, header_u32};
use crate::stream::SignedUrl;
use crate::text::{
    char_views, chars_of, decimal, equals_ignoring_case, find_text,
    law_case_is_all_that_is_ignored, lemma_one_piece, lemma_pieces_join,
    lemma_pieces_not_empty, occurs_at, parse_number, parsed, pieces, push_decimal, push_text,
    same_ignoring_case, same_text, split_chars, starts_with, strip_prefix, text_of,
};
use crate::upload::StoredObject;
use crate::webhook::{format_uri, uri_text, Webhook};

verus! {

/// A segment holds at most this many physical frames: one attachment.
pub const FRAMES_PER_SEGMENT: u64 = 150;

/// Attempts to resolve an attachment under transient rate limits.
pub const RESOLVE_ATTEMPTS: u32 = 4;

/// How far ahead a reservation may queue, in nanoseconds.
pub const QUOTA_DEADLINE: u64 = 30_000_000_000;

/// How long a reservation stays valid, in nanoseconds.
pub const QUOTA_VALIDITY: u64 = 60_000_000_000;

pub const WEBHOOK_CAPACITY: u32 = 5;

pub const CHANNEL_CAPACITY: u32 = 30;

pub const IP_CAPACITY: u32 = 10_000;

pub const GLOBAL_CAPACITY: u32 = 50;

/// One webhook request every 400 ms.
pub const WEBHOOK_INTERVAL: u64 = 400_000_000;

/// One channel request every 2 s.
pub const CHANNEL_INTERVAL: u64 = 2_000_000_000;

/// A thousand requests of one address per minute.
pub const IP_INTERVAL: u64 = 60_000_000;

/// Fifty requests per second.
pub const GLOBAL_INTERVAL: u64 = 20_000_000;

/// Encrypted bytes that one segment takes at most.
pub fn max_physical_bytes_per_segment(frame_size: usize) -> (bytes: u64)
    requires
        frame_size * FRAMES_PER_SEGMENT <= u64::MAX,
    ensures
        bytes == frame_size * FRAMES_PER_SEGMENT,
{
    frame_size as u64 * FRAMES_PER_SEGMENT
}

#[derive(Debug, PartialEq, Eq)]
pub enum ProxyError {
    UnsupportedScheme(String),
    InvalidUrl,
}

impl ProxyError {
    /// The text of an unsupported scheme. An invalid URL is described by the
    /// HTTP client's own error.
    pub fn message(&self) -> (text: Option<String>)
        ensures
            match *self {
                ProxyError::UnsupportedScheme(scheme) => text matches Some(t) && t@
                    == "unsupported proxy scheme '"@ + scheme@
                    + "'; expected http, https, socks5, or socks5h"@,
                ProxyError::InvalidUrl => text is None,
            },
    {
        match self {
            ProxyError::UnsupportedScheme(scheme) => {
                let mut text: String = String::new();
                push_text(&mut text, "unsupported proxy scheme '");
                push_text(&mut text, scheme.as_str());
                push_text(&mut text, "'; expected http, https, socks5, or socks5h");
                assert(text@ =~= "unsupported proxy scheme '"@ + scheme@
                    + "'; expected http, https, socks5, or socks5h"@);
                Some(text)
            },
            ProxyError::InvalidUrl => None,
        }
    }
}

/// Whether `reqwest::Proxy::all` takes the URL.
pub uninterp spec fn proxy_url_accepted(url: Seq<char>) -> bool;

/// `reqwest::Proxy::all` parses the URL; whether it does depends on the URL
/// alone.
#[verifier::external_body]
pub(crate) fn proxy_accepts(url: &str) -> (accepted: bool)
    ensures
        accepted == proxy_url_accepted(url@),
{
    reqwest::Proxy::all(url).is_ok()
}

/// Whether the scheme is what stands before the first `://`, or nothing where
/// there is none.
pub open spec fn is_scheme(url: Seq<char>, scheme: Seq<char>) -> bool {
    if exists|i: int| occurs_at(url, "://"@, i) {
        &&& occurs_at(url, "://"@, scheme.len() as int)
        &&& forall|k: int| 0 <= k < scheme.len() ==> !occurs_at(url, "://"@, k)
        &&& scheme == url.take(scheme.len() as int)
    } else {
        scheme.len() == 0
    }
}

/// The proxies that requests can go through.
pub open spec fn supported_scheme(scheme: Seq<char>) -> bool {
    scheme == "http"@ || scheme == "https"@ || scheme == "socks5"@ || scheme == "socks5h"@
}

fn proxy_scheme(url: &str) -> (scheme: String)
    ensures
        is_scheme(url@, scheme@),
{
    let chars: Vec<char> = chars_of(url);
    match find_text(chars.as_slice(), "://") {
        Some(i) => {
            let scheme: String = text_of(vstd::slice::slice_subrange(chars.as_slice(), 0, i));
            assert(scheme@ =~= url@.take(i as int));
            scheme
        },
        None => String::new(),
    }
}

/// Judges a proxy URL, given whether the HTTP client takes it.
pub fn judge_proxy(url: &str, accepted: bool) -> (judged: Result<(), ProxyError>)
    ensures
        match judged {
            Ok(_) => accepted && exists|scheme: Seq<char>| #[trigger]
                is_scheme(url@, scheme) && supported_scheme(scheme),
            Err(ProxyError::UnsupportedScheme(scheme)) => {
                &&& is_scheme(url@, scheme@)
                &&& !supported_scheme(scheme@)
            },
            Err(ProxyError::InvalidUrl) => {
                &&& !accepted
                &&& exists|scheme: Seq<char>| #[trigger]
                    is_scheme(url@, scheme) && supported_scheme(scheme)
            },
        },
{
    let scheme: String = proxy_scheme(url);
    if !(same_text(scheme.as_str(), "http") || same_text(scheme.as_str(), "https") || same_text(
        scheme.as_str(),
        "socks5",
    ) || same_text(scheme.as_str(), "socks5h")) {
        return Err(ProxyError::UnsupportedScheme(scheme));
    }
    assert(is_scheme(url@, scheme@) && supported_scheme(scheme@));
    if accepted {
        Ok(())
    } else {
        Err(ProxyError::InvalidUrl)
    }
}

/// Whether requests can go through the proxy.
pub open spec fn proxy_usable(url: Seq<char>) -> bool {
    proxy_url_accepted(url) && exists|scheme: Seq<char>| #[trigger]
        is_scheme(url, scheme) && supported_scheme(scheme)
}

proof fn lemma_scheme_is_unique(url: Seq<char>, a: Seq<char>, b: Seq<char>)
    requires
        is_scheme(url, a),
        is_scheme(url, b),
    ensures
        a == b,
{
    if exists|i: int| occurs_at(url, "://"@, i) {
        if a.len() < b.len() {
            assert(!occurs_at(url, "://"@, a.len() as int));
        }
        if b.len() < a.len() {
            assert(!occurs_at(url, "://"@, b.len() as int));
        }
    } else {
        assert(a =~= b);
    }
}

/// Why requests cannot go through the proxy.
pub open spec fn proxy_refused(url: Seq<char>, error: ProxyError) -> bool {
    match error {
        ProxyError::UnsupportedScheme(scheme) => is_scheme(url, scheme@) && !supported_scheme(
            scheme@,
        ),
        ProxyError::InvalidUrl => !proxy_url_accepted(url) && exists|scheme: Seq<char>| #[trigger]
            is_scheme(url, scheme) && supported_scheme(scheme),
    }
}

/// Checks a proxy URL: its scheme, and that the HTTP client takes it.
pub fn check_proxy(url: &str) -> (checked: Result<(), ProxyError>)
    ensures
        checked is Ok <==> proxy_usable(url@),
        checked matches Err(error) ==> proxy_refused(url@, error),
{
    let judged: Result<(), ProxyError> = judge_proxy(url, proxy_accepts(url));
    proof {
        if judged is Err && judged->Err_0 is UnsupportedScheme {
            let scheme = judged->Err_0->UnsupportedScheme_0;
            assert forall|other: Seq<char>| #[trigger] is_scheme(url@, other) implies
                !supported_scheme(other) by {
                lemma_scheme_is_unique(url@, scheme@, other);
            }
        }
    }
    judged
}

#[derive(Debug, PartialEq, Eq)]
pub enum StoreError {
    NoWebhooks,
    Proxy(ProxyError),
    FrameTooSmall,
}

/// The settings of a store that were checked: its webhooks, the frame size, and
/// one API client per proxy or one direct client.
pub struct StorageBackend {
    pub webhooks: Vec<Webhook>,
    pub frame_size: usize,
    pub proxy_urls: Vec<String>,
}

impl StorageBackend {
    /// Clients for API requests: one per proxy, or one without.
    pub fn api_client_count(&self) -> (count: usize)
        ensures
            count == if self.proxy_urls@.len() == 0 {
                1
            } else {
                self.proxy_urls@.len() as int
            },
    {
        if self.proxy_urls.len() == 0 {
            1
        } else {
            self.proxy_urls.len()
        }
    }
}

/// Whether the store has exactly these settings.
pub open spec fn store_is(
    store: StorageBackend,
    webhooks: Seq<Webhook>,
    frame_size: usize,
    proxy_urls: Seq<Seq<char>>,
) -> bool {
    &&& store.webhooks@ == webhooks
    &&& store.frame_size == frame_size
    &&& store.proxy_urls@.map_values(|url: String| url@) == proxy_urls
}

/// Whether proxy `i` is the first that is refused, with this error.
pub open spec fn first_refused(proxy_urls: Seq<Seq<char>>, i: int, error: ProxyError) -> bool {
    &&& 0 <= i < proxy_urls.len()
    &&& !proxy_usable(proxy_urls[i])
    &&& proxy_refused(proxy_urls[i], error)
    &&& forall|k: int| 0 <= k < i ==> proxy_usable(#[trigger] proxy_urls[k])
}

/// What creating a store from these settings answers.
pub open spec fn is_created(
    webhooks: Seq<Webhook>,
    frame_size: usize,
    proxy_urls: Seq<Seq<char>>,
    created: Result<StorageBackend, StoreError>,
) -> bool {
    let usable = forall|i: int|
        0 <= i < proxy_urls.len() ==> proxy_usable(#[trigger] proxy_urls[i]);
    match created {
        Ok(store) => {
            &&& webhooks.len() > 0
            &&& usable
            &&& frame_size > TAG_SIZE
            &&& store_is(store, webhooks, frame_size, proxy_urls)
        },
        Err(StoreError::NoWebhooks) => webhooks.len() == 0,
        Err(StoreError::Proxy(error)) => webhooks.len() > 0 && exists|i: int| #[trigger]
            first_refused(proxy_urls, i, error),
        Err(StoreError::FrameTooSmall) => {
            webhooks.len() > 0 && usable && frame_size <= TAG_SIZE
        },
    }
}

/// Checks the settings of a store without proxies.
pub fn create(webhooks: Vec<Webhook>, frame_size: usize) -> (created: Result<
    StorageBackend,
    StoreError,
>)
    ensures
        is_created(webhooks@, frame_size, Seq::empty(), created),
{
    let none: Vec<String> = Vec::new();
    assert(none@.map_values(|url: String| url@) =~= Seq::<Seq<char>>::empty());
    create_with_proxies(webhooks, frame_size, none.as_slice())
}

/// Checks the settings of a store with one proxy, or without.
pub fn create_with_proxy(webhooks: Vec<Webhook>, frame_size: usize, proxy_url: Option<&str>) -> (
    created: Result<StorageBackend, StoreError>)
    ensures
        is_created(
            webhooks@,
            frame_size,
            match proxy_url {
                Some(url) => seq![url@],
                None => Seq::empty(),
            },
            created,
        ),
{
    match proxy_url {
        Some(url) => {
            let mut urls: Vec<String> = Vec::new();
            urls.push(url.to_owned());
            assert(urls@.map_values(|url: String| url@) =~= seq![url@]);
            create_with_proxies(webhooks, frame_size, urls.as_slice())
        },
        None => create(webhooks, frame_size),
    }
}

/// Checks the settings of a store with one API client per proxy. An empty list
/// uses a single direct client.
pub fn create_with_proxies(webhooks: Vec<Webhook>, frame_size: usize, proxy_urls: &[String]) -> (
    created: Result<StorageBackend, StoreError>)
    ensures
        is_created(
            webhooks@,
            frame_size,
            proxy_urls@.map_values(|url: String| url@),
            created,
        ),
{
    let ghost urls = proxy_urls@.map_values(|url: String| url@);
    if webhooks.len() == 0 {
        return Err(StoreError::NoWebhooks);
    }
    let mut kept: Vec<String> = Vec::new();
    let mut i: usize = 0;
    while i < proxy_urls.len()
        invariant
            urls == proxy_urls@.map_values(|url: String| url@),
            webhooks@.len() > 0,
            i <= proxy_urls.len(),
            kept@ == proxy_urls@.take(i as int),
            forall|k: int| 0 <= k < i ==> proxy_usable(#[trigger] urls[k]),
        decreases proxy_urls.len() - i,
    {
        assert(urls[i as int] == proxy_urls@[i as int]@);
        match check_proxy(proxy_urls[i].as_str()) {
            Ok(_) => {},
            Err(error) => {
                assert(first_refused(urls, i as int, error));
                return Err(StoreError::Proxy(error));
            },
        }
        kept.push(proxy_urls[i].clone());
        assert(kept@ =~= proxy_urls@.take(i + 1));
        i += 1;
    }
    if frame_size <= TAG_SIZE {
        return Err(StoreError::FrameTooSmall);
    }
    assert(kept@ =~= proxy_urls@);
    Ok(StorageBackend { webhooks, frame_size, proxy_urls: kept })
}

/// Whether webhook `i` is the one that the id names: the last with that id.
pub open spec fn is_webhook_index(webhooks: Seq<Webhook>, id: Seq<char>, i: int) -> bool {
    &&& 0 <= i < webhooks.len()
    &&& webhooks[i].id@ == id
    &&& forall|j: int| i < j < webhooks.len() ==> (#[trigger] webhooks[j]).id@ != id
}

/// The webhook that an id names.
pub fn webhook_index(webhooks: &Vec<Webhook>, id: &str) -> (index: Option<usize>)
    ensures
        match index {
            Some(i) => is_webhook_index(webhooks@, id@, i as int),
            None => forall|i: int| 0 <= i < webhooks@.len() ==> (#[trigger] webhooks@[i]).id@ != id@,
        },
{
    let mut i: usize = webhooks.len();
    while i > 0
        invariant
            i <= webhooks.len(),
            forall|j: int| i <= j < webhooks@.len() ==> (#[trigger] webhooks@[j]).id@ != id@,
        decreases i,
    {
        i -= 1;
        if same_text(webhooks[i].id.as_str(), id) {
            return Some(i);
        }
    }
    None
}

/// A bucket of a fresh engine.
pub open spec fn fresh_bucket(label: Seq<char>, capacity: int, interval: int, now: int) -> BucketView {
    BucketView { label, interval, tolerance: interval * (capacity - 1), tat: now, rtat: now }
}

/// A webhook lane of a fresh engine: the webhook's own limit and its channel's.
pub open spec fn fresh_lane(idx: usize, now: int) -> ResourceView<usize> {
    ResourceView {
        key: idx,
        alive: true,
        buckets: seq![
            fresh_bucket("webhook"@, WEBHOOK_CAPACITY as int, WEBHOOK_INTERVAL as int, now),
            fresh_bucket("channel"@, CHANNEL_CAPACITY as int, CHANNEL_INTERVAL as int, now),
        ],
    }
}

/// An egress of a fresh engine: the limit of its address and the global one.
pub open spec fn fresh_egress(idx: usize, now: int) -> ResourceView<usize> {
    ResourceView {
        key: idx,
        alive: true,
        buckets: seq![
            fresh_bucket("ip"@, IP_CAPACITY as int, IP_INTERVAL as int, now),
            fresh_bucket("global"@, GLOBAL_CAPACITY as int, GLOBAL_INTERVAL as int, now),
        ],
    }
}

fn lane(idx: usize, now: u64) -> (resource: Resource<usize>)
    ensures
        resource@ == fresh_lane(idx, now as int),
{
    let mut buckets: Vec<Bucket> = Vec::new();
    buckets.push(Bucket::new("webhook", WEBHOOK_CAPACITY, WEBHOOK_INTERVAL, 0, now));
    buckets.push(Bucket::new("channel", CHANNEL_CAPACITY, CHANNEL_INTERVAL, 0, now));
    assert(bucket_views(buckets@) =~= fresh_lane(idx, now as int).buckets);
    Resource::new(idx, buckets)
}

fn egress(idx: usize, now: u64) -> (resource: Resource<usize>)
    ensures
        resource@ == fresh_egress(idx, now as int),
{
    let mut buckets: Vec<Bucket> = Vec::new();
    buckets.push(Bucket::new("ip", IP_CAPACITY, IP_INTERVAL, 0, now));
    buckets.push(Bucket::new("global", GLOBAL_CAPACITY, GLOBAL_INTERVAL, 0, now));
    assert(bucket_views(buckets@) =~= fresh_egress(idx, now as int).buckets);
    Resource::new(idx, buckets)
}

/// The quota of a store: one lane per webhook and one egress per API client.
pub fn quota_engine(webhooks: usize, egresses: usize, now: u64) -> (engine: QuotaEngine<usize>)
    ensures
        engine@.shared.len() == 0,
        engine@.pools == seq![
            Seq::new(webhooks as nat, |i: int| fresh_lane(i as usize, now as int)),
            Seq::new(egresses as nat, |i: int| fresh_egress(i as usize, now as int)),
        ],
{
    let mut lanes: Vec<Resource<usize>> = Vec::new();
    let mut i: usize = 0;
    while i < webhooks
        invariant
            i <= webhooks,
            lanes.len() == i,
            forall|k: int|
                0 <= k < i ==> (#[trigger] lanes[k])@ == fresh_lane(k as usize, now as int),
        decreases webhooks - i,
    {
        lanes.push(lane(i, now));
        i += 1;
    }
    let mut exits: Vec<Resource<usize>> = Vec::new();
    let mut j: usize = 0;
    while j < egresses
        invariant
            j <= egresses,
            exits.len() == j,
            forall|k: int|
                0 <= k < j ==> (#[trigger] exits[k])@ == fresh_egress(k as usize, now as int),
        decreases egresses - j,
    {
        exits.push(egress(j, now));
        j += 1;
    }
    let mut pools: Vec<Pool<usize>> = Vec::new();
    pools.push(Pool::new(lanes));
    pools.push(Pool::new(exits));
    proof {
        assert(pools@[0]@ =~= Seq::new(
            webhooks as nat,
            |i: int| fresh_lane(i as usize, now as int),
        ));
        assert(pools@[1]@ =~= Seq::new(
            egresses as nat,
            |i: int| fresh_egress(i as usize, now as int),
        ));
        assert(pools@.map_values(|p: Pool<usize>| p@) =~= seq![
            Seq::new(webhooks as nat, |i: int| fresh_lane(i as usize, now as int)),
            Seq::new(egresses as nat, |i: int| fresh_egress(i as usize, now as int)),
        ]);
    }
    let shared: Vec<Bucket> = Vec::new();
    QuotaEngine::new(shared, pools)
}

/// What the headers of a response say of the limits.
pub struct RateHeaders<'a> {
    pub limit: Option<&'a str>,
    pub remaining: Option<&'a str>,
    pub global: Option<&'a str>,
}

/// What a response means for the quota: the webhook's remaining and total
/// tokens where they are known, and whether the global limit was hit.
#[derive(Clone, Copy, Debug, PartialEq, Eq)]
pub struct RateUpdate {
    pub webhook: Option<(u32, u32)>,
    pub global: bool,
}

/// The webhook's remaining and total tokens after a response: as the headers
/// say, one less than the limit where they do not say what remains, and none
/// where the request was refused for its rate.
pub open spec fn webhook_tokens(headers: RateHeaders, status: u16) -> Option<(int, int)> {
    match header_number(headers.limit) {
        Some(limit) => Some(
            (
                match header_number(headers.remaining) {
                    Some(remaining) => remaining,
                    None => if limit == 0 { 0 } else { limit - 1 },
                },
                limit,
            ),
        ),
        None => if status == 429 {
            Some((0, WEBHOOK_CAPACITY as int))
        } else {
            None
        },
    }
}

/// Whether the response came from the global limit.
pub open spec fn is_global(headers: RateHeaders) -> bool {
    headers.global matches Some(value) && same_ignoring_case(value@, "true"@)
}

/// Reads what a response means for the quota.
pub fn rate_update(headers: RateHeaders, status: u16) -> (update: RateUpdate)
    ensures
        match update.webhook {
            Some((remaining, limit)) => webhook_tokens(headers, status) == Some(
                (remaining as int, limit as int),
            ),
            None => webhook_tokens(headers, status) is None,
        },
        update.global == is_global(headers),
{
    let webhook: Option<(u32, u32)> = match header_u32(headers.limit) {
        Some(limit) => {
            let remaining: u32 = match header_u32(headers.remaining) {
                Some(remaining) => remaining,
                None => limit.saturating_sub(1),
            };
            Some((remaining, limit))
        },
        None => {
            if status == 429 {
                Some((0, WEBHOOK_CAPACITY))
            } else {
                None
            }
        },
    };
    let global: bool = match headers.global {
        Some(value) => equals_ignoring_case(value, "true"),
        None => false,
    };
    RateUpdate { webhook, global }
}

/// The engine after the webhook's tokens were reported.
pub open spec fn webhook_told(
    before: EngineView<usize>,
    webhook_idx: usize,
    update: RateUpdate,
    now: int,
    after: EngineView<usize>,
) -> bool {
    match update.webhook {
        Some((remaining, limit)) => is_reading(
            before,
            0,
            webhook_idx,
            "webhook"@,
            remaining as int,
            limit as int,
            now,
            after,
        ),
        None => after == before,
    }
}

/// The engine after the global limit was reported.
pub open spec fn global_told(
    before: EngineView<usize>,
    egress_idx: usize,
    update: RateUpdate,
    now: int,
    after: EngineView<usize>,
) -> bool {
    if update.global {
        is_reading(
            before,
            1,
            egress_idx,
            "global"@,
            0,
            GLOBAL_CAPACITY as int,
            now,
            after,
        )
    } else {
        after == before
    }
}

/// Tightens the quota by what a response said.
pub fn update_from_headers(
    quota: &mut QuotaHandle<usize>,
    webhook_idx: usize,
    egress_idx: usize,
    update: RateUpdate,
    now: u64,
)
    requires
        old(quota)@.pools.len() == 2,
        update.webhook matches Some((remaining, limit)) ==> keyed_reconcile_fits(
            old(quota)@,
            0,
            webhook_idx,
            "webhook"@,
            remaining as int,
            limit as int,
            now as int,
        ),
        update.global ==> keyed_reconcile_fits(
            old(quota)@,
            1,
            egress_idx,
            "global"@,
            0,
            GLOBAL_CAPACITY as int,
            now as int,
        ),
    ensures
        exists|middle: EngineView<usize>|
            webhook_told(old(quota)@, webhook_idx, update, now as int, middle) && #[trigger]
            global_told(middle, egress_idx, update, now as int, final(quota)@),
{
    let ghost before = quota@;
    if let Some((remaining, limit)) = update.webhook {
        quota.update(0, &webhook_idx, "webhook", remaining, limit, now);
    }
    let ghost middle = quota@;
    assert(webhook_told(before, webhook_idx, update, now as int, middle));
    assert(middle.pools.len() == 2 && middle.pools[1] == before.pools[1]) by {
        if update.webhook is Some {
            let pool = before.pools[0];
            if exists|i: int| crate::quota::is_first_with_key(pool, webhook_idx, i) {
                let i = choose|i: int| crate::quota::is_first_with_key(pool, webhook_idx, i);
                assert(crate::quota::is_first_with_key(pool, webhook_idx, i));
            } else {
                lemma_no_first_means_no_key(pool, webhook_idx, pool.len() as int);
            }
        }
    }
    if update.global {
        quota.update(1, &egress_idx, "global", 0, GLOBAL_CAPACITY, now);
    }
    assert(global_told(middle, egress_idx, update, now as int, quota@));
}

proof fn lemma_no_first_means_no_key(pool: Seq<ResourceView<usize>>, key: usize, n: int)
    requires
        0 <= n <= pool.len(),
        forall|i: int| !crate::quota::is_first_with_key(pool, key, i),
    ensures
        forall|i: int|
            #![trigger pool[i]]
            0 <= i < n ==> !vstd::std_specs::cmp::PartialEqSpec::eq_spec(&pool[i].key, &key),
    decreases n,
{
    if n > 0 {
        lemma_no_first_means_no_key(pool, key, n - 1);
        assert(!crate::quota::is_first_with_key(pool, key, n - 1));
    }
}

/// Whether a status says that the request was carried out.
pub open spec fn success(status: u16) -> bool {
    200 <= status <= 299
}

/// Whether a status says that the webhook is gone: a bad token, or unknown.
pub fn is_dead(status: u16) -> (dead: bool)
    ensures
        dead == (status == 401 || status == 403 || status == 404),
{
    status == 401 || status == 403 || status == 404
}

/// What the response to an upload means.
#[derive(Clone, Copy, Debug, PartialEq, Eq, Structural)]
pub enum UploadOutcome {
    Stored,
    /// The webhook is gone and has to leave the rotation.
    Dead,
    Failed,
}

/// What the response to an upload means.
pub fn upload_outcome(status: u16) -> (outcome: UploadOutcome)
    ensures
        outcome == if status == 401 || status == 403 || status == 404 {
            UploadOutcome::Dead
        } else if success(status) {
            UploadOutcome::Stored
        } else {
            UploadOutcome::Failed
        },
{
    if is_dead(status) {
        UploadOutcome::Dead
    } else if 200 <= status && status <= 299 {
        UploadOutcome::Stored
    } else {
        UploadOutcome::Failed
    }
}

/// Whether a message is gone after the response to its deletion. One that was
/// missing counts as deleted.
pub fn is_deleted(status: u16) -> (deleted: bool)
    ensures
        deleted == (success(status) || status == 404),
{
    (200 <= status && status <= 299) || status == 404
}

/// What to do after the response to a resolution.
#[derive(Clone, Copy, Debug, PartialEq, Eq, Structural)]
pub enum ResolveStep {
    Resolved,
    /// Refused for its rate: ask again.
    Retry,
    Failed,
    /// Refused for its rate too often.
    Exhausted,
}

/// A resolution that is repeated while its rate is refused, a bounded number of
/// times.
#[derive(Clone, Copy, Debug, PartialEq, Eq, Structural)]
pub struct ResolveAttempts {
    left: u32,
}

impl ResolveAttempts {
    /// Responses still waited for.
    pub closed spec fn spec_left(self) -> int {
        self.left as int
    }

    pub fn new() -> (attempts: ResolveAttempts)
        ensures
            attempts.spec_left() == RESOLVE_ATTEMPTS,
    {
        ResolveAttempts { left: RESOLVE_ATTEMPTS }
    }

    /// Judges the response to the attempt that was made.
    pub fn respond(&mut self, status: u16) -> (step: ResolveStep)
        requires
            old(self).spec_left() > 0,
        ensures
            final(self).spec_left() == old(self).spec_left() - 1,
            step == if status == 429 {
                if old(self).spec_left() > 1 {
                    ResolveStep::Retry
                } else {
                    ResolveStep::Exhausted
                }
            } else if success(status) {
                ResolveStep::Resolved
            } else {
                ResolveStep::Failed
            },
    {
        self.left = self.left - 1;
        if status == 429 {
            if self.left > 0 {
                ResolveStep::Retry
            } else {
                ResolveStep::Exhausted
            }
        } else if 200 <= status && status <= 299 {
            ResolveStep::Resolved
        } else {
            ResolveStep::Failed
        }
    }
}

/// Where a segment is posted.
pub fn post_url(api_base: &str, id: &str, token: &str) -> (url: String)
    ensures
        url@ == api_base@ + "/webhooks/"@ + id@ + "/"@ + token@ + "?wait=true"@,
{
    let mut url: String = String::new();
    push_text(&mut url, api_base);
    push_text(&mut url, "/webhooks/");
    push_text(&mut url, id);
    push_text(&mut url, "/");
    push_text(&mut url, token);
    push_text(&mut url, "?wait=true");
    assert(url@ =~= api_base@ + "/webhooks/"@ + id@ + "/"@ + token@ + "?wait=true"@);
    url
}

/// Where a message is found and deleted.
pub fn message_url(api_base: &str, id: &str, token: &str, message_id: &str) -> (url: String)
    ensures
        url@ == api_base@ + "/webhooks/"@ + id@ + "/"@ + token@ + "/messages/"@ + message_id@,
{
    let mut url: String = String::new();
    push_text(&mut url, api_base);
    push_text(&mut url, "/webhooks/");
    push_text(&mut url, id);
    push_text(&mut url, "/");
    push_text(&mut url, token);
    push_text(&mut url, "/messages/");
    push_text(&mut url, message_id);
    assert(url@ =~= api_base@ + "/webhooks/"@ + id@ + "/"@ + token@ + "/messages/"@ + message_id@);
    url
}

/// The range header that asks for the bytes from `start` up to `end`.
pub fn range_header(start: u64, end: u64) -> (header: String)
    ensures
        header@ == "bytes="@ + decimal(start as nat) + "-"@ + decimal(
            (if end == 0 { 0 } else { end - 1 }) as nat,
        ),
{
    let mut header: String = String::new();
    push_text(&mut header, "bytes=");
    push_decimal(&mut header, start);
    push_text(&mut header, "-");
    push_decimal(&mut header, end.saturating_sub(1));
    assert(header@ =~= "bytes="@ + decimal(start as nat) + "-"@ + decimal(
        (if end == 0 { 0 } else { end - 1 }) as nat,
    ));
    header
}

/// The URL of the first attachment, where the message has one.
pub fn first_attachment(urls: Vec<String>) -> (url: Option<String>)
    ensures
        url == (if urls@.len() == 0 { None } else { Some(urls@[0]) }),
{
    if urls.len() == 0 {
        None
    } else {
        Some(urls[0].clone())
    }
}

/// The expiry among the pairs of a query from pair `i` on: the first pair that
/// starts with `ex=` decides.
pub open spec fn expiry_among(pairs: Seq<Seq<char>>, i: int) -> Option<int>
    decreases pairs.len() - i,
{
    if i < 0 || i >= pairs.len() {
        None
    } else if starts_with(pairs[i], "ex="@) {
        parsed(pairs[i].skip("ex="@.len() as int), 16, u64::MAX as int)
    } else {
        expiry_among(pairs, i + 1)
    }
}

/// The expiry that a CDN URL carries: a Unix time in hexadecimal, in the `ex`
/// parameter of its query.
pub open spec fn expiry(url: Seq<char>) -> Option<int> {
    let parts = pieces(url, '?');
    if parts.len() < 2 {
        None
    } else {
        expiry_among(pieces(parts[1], '&'), 0)
    }
}

/// Reads the expiry of a CDN URL, in seconds of Unix time.
pub fn parse_expiry(url: &str) -> (seconds: Option<u64>)
    ensures
        match seconds {
            Some(s) => expiry(url@) == Some(s as int),
            None => expiry(url@) is None,
        },
{
    let chars: Vec<char> = chars_of(url);
    let parts: Vec<Vec<char>> = split_chars(chars.as_slice(), '?');
    assert(parts.len() == char_views(parts@).len());
    if parts.len() < 2 {
        return None;
    }
    assert(char_views(parts@)[1] == parts@[1]@);
    let pairs: Vec<Vec<char>> = split_chars(parts[1].as_slice(), '&');
    let ghost views = char_views(pairs@);
    let mut i: usize = 0;
    while i < pairs.len()
        invariant
            views == char_views(pairs@),
            i <= pairs.len(),
            expiry(url@) == expiry_among(views, i as int),
        decreases pairs.len() - i,
    {
        assert(views[i as int] == pairs[i as int]@);
        if let Some(value) = strip_prefix(pairs[i].as_slice(), "ex=") {
            return parse_number(value.as_slice(), 16, u64::MAX);
        }
        i += 1;
    }
    None
}

/// Reads the URL of a message's attachment, with its expiry; nothing where the
/// message has no attachment.
pub fn resolved_url(attachments: Vec<String>) -> (url: Option<SignedUrl>)
    ensures
        match url {
            Some(u) => {
                &&& attachments@.len() > 0
                &&& is_attachment_url(u, attachments@[0]@)
            },
            None => attachments@.len() == 0,
        },
{
    match first_attachment(attachments) {
        None => None,
        Some(url) => {
            let expires: Option<u64> = parse_expiry(url.as_str());
            Some(SignedUrl::new(url.as_str(), expires))
        },
    }
}

/// Whether a signed URL is that of an attachment, with the expiry it carries.
pub open spec fn is_attachment_url(url: SignedUrl, attachment: Seq<char>) -> bool {
    &&& url@.value == attachment
    &&& match url@.expires_at {
        Some(s) => expiry(attachment) == Some(s as int),
        None => expiry(attachment) is None,
    }
}

/// What a posted message stores: its URI, and the URL of its attachment; nothing
/// where the message has no attachment.
pub fn stored_segment(webhook: &Webhook, message_id: &str, attachments: Vec<String>) -> (stored:
    Option<StoredObject>)
    ensures
        match stored {
            Some(object) => {
                &&& attachments@.len() > 0
                &&& object.uri@ == uri_text(webhook.id@, webhook.token@, message_id@)
                &&& object.cached_url matches Some(url) && is_attachment_url(
                    url,
                    attachments@[0]@,
                )
            },
            None => attachments@.len() == 0,
        },
{
    match resolved_url(attachments) {
        None => None,
        Some(url) => Some(
            StoredObject {
                uri: format_uri(webhook.id.as_str(), webhook.token.as_str(), message_id),
                cached_url: Some(url),
            },
        ),
    }
}

/// Passes a body on one chunk behind, so that the last chunk is held until its
/// release is authorized.
pub struct LastChunkGate {
    last: Option<Bytes>,
    passed: Ghost<Seq<Bytes>>,
}

/// What a gate is: the chunks that it passed on, and the one that it holds.
pub struct LastChunkGateView {
    pub passed: Seq<Bytes>,
    pub held: Option<Bytes>,
}

impl LastChunkGateView {
    /// All chunks that came in, in order.
    pub open spec fn taken(self) -> Seq<Bytes> {
        match self.held {
            Some(chunk) => self.passed.push(chunk),
            None => self.passed,
        }
    }

    /// The last chunk is always held.
    pub open spec fn wf(self) -> bool {
        self.held is None ==> self.passed.len() == 0
    }
}

impl View for LastChunkGate {
    type V = LastChunkGateView;

    closed spec fn view(&self) -> LastChunkGateView {
        LastChunkGateView { passed: self.passed@, held: self.last }
    }
}

impl LastChunkGate {
    pub fn new() -> (gate: LastChunkGate)
        ensures
            gate@ == (LastChunkGateView { passed: Seq::empty(), held: None }),
            gate@.wf(),
    {
        LastChunkGate { last: None, passed: Ghost(Seq::empty()) }
    }

    /// Takes a chunk and passes the one before it on. Nothing is lost or
    /// reordered.
    pub fn push(&mut self, chunk: Bytes) -> (previous: Option<Bytes>)
        requires
            old(self)@.wf(),
        ensures
            final(self)@.wf(),
            previous == old(self)@.held,
            final(self)@ == (LastChunkGateView {
                passed: old(self)@.taken(),
                held: Some(chunk),
            }),
            final(self)@.taken() == old(self)@.taken().push(chunk),
    {
        let previous: Option<Bytes> = self.last.take();
        proof {
            if previous is Some {
                self.passed@ = self.passed@.push(previous->0);
            }
        }
        self.last = Some(chunk);
        previous
    }

    /// Passes the last chunk on, once its release is authorized: after it, all
    /// that was taken was passed on.
    pub fn finish(self) -> (last: Option<Bytes>)
        requires
            self@.wf(),
        ensures
            last == self@.held,
            last matches Some(chunk) ==> self@.taken() == self@.passed.push(chunk),
            last is None ==> self@.taken().len() == 0,
    {
        self.last
    }
}

/// The limits that a store works under: segments of a hundred and fifty frames,
/// four attempts to resolve, half a minute ahead and a minute of validity.
pub proof fn law_limits_of_webhooks()
    ensures
        FRAMES_PER_SEGMENT == 150,
        RESOLVE_ATTEMPTS == 4,
        QUOTA_DEADLINE == 30 * 1_000_000_000,
        QUOTA_VALIDITY == 60 * 1_000_000_000,
{
}

/// A fresh lane allows five requests of its webhook at once and then five in two
/// seconds, and thirty of its channel at once and then thirty in a minute.
pub proof fn law_fresh_lanes_keep_the_limits(idx: usize, now: int)
    ensures
        fresh_lane(idx, now).key == idx,
        fresh_lane(idx, now).alive,
        fresh_lane(idx, now).buckets.len() == 2,
        ({
            let webhook = fresh_lane(idx, now).buckets[0];
            let channel = fresh_lane(idx, now).buckets[1];
            &&& webhook.label == "webhook"@
            &&& webhook.interval * 5 == 2_000_000_000
            &&& webhook.tolerance == 4 * webhook.interval
            &&& webhook.tat == now && webhook.rtat == now
            &&& channel.label == "channel"@
            &&& channel.interval * 30 == 60 * 1_000_000_000
            &&& channel.tolerance == 29 * channel.interval
            &&& channel.tat == now && channel.rtat == now
        }),
{
}

/// A fresh egress allows ten thousand requests of its address at once and then a
/// thousand in a minute, and fifty of all at once and then fifty in a second.
pub proof fn law_fresh_egresses_keep_the_limits(idx: usize, now: int)
    ensures
        fresh_egress(idx, now).key == idx,
        fresh_egress(idx, now).alive,
        fresh_egress(idx, now).buckets.len() == 2,
        ({
            let ip = fresh_egress(idx, now).buckets[0];
            let global = fresh_egress(idx, now).buckets[1];
            &&& ip.label == "ip"@
            &&& ip.interval * 1000 == 60 * 1_000_000_000
            &&& ip.tolerance == 9_999 * ip.interval
            &&& ip.tat == now && ip.rtat == now
            &&& global.label == "global"@
            &&& global.interval * 50 == 1_000_000_000
            &&& global.tolerance == 49 * global.interval
            &&& global.tat == now && global.rtat == now
        }),
{
}

/// The tokens promise: the headers of a response count the tokens of the webhook.
/// Where they tell a limit and not what remains, one was spent; where they tell no
/// limit, only a refusal for the rate says something: that none is left.
pub proof fn law_headers_count_the_tokens(headers: RateHeaders, status: u16)
    ensures
        match header_number(headers.limit) {
            Some(limit) => webhook_tokens(headers, status) matches Some((remaining, total)) && {
                &&& total == limit
                &&& header_number(headers.remaining) matches Some(told) ==> remaining == told
                &&& header_number(headers.remaining) is None && limit > 0 ==> remaining + 1
                    == limit
                &&& header_number(headers.remaining) is None && limit == 0 ==> remaining == 0
            },
            None => if status == 429 {
                webhook_tokens(headers, status) == Some((0int, 5int))
            } else {
                webhook_tokens(headers, status) is None
            },
        },
{
}

/// A number in a header is one in decimal that thirty-two bits count; anything
/// else, and no header, is none.
pub proof fn law_header_numbers_are_decimal(value: Option<&str>)
    ensures
        header_number(value) == match value {
            Some(text) => parsed(text@, 10, 4_294_967_295),
            None => None,
        },
{
}

/// What a response told of a webhook counts for the lane of that webhook: of its
/// tokens, all that the response does not leave were spent.
pub proof fn law_responses_hold_their_webhook_back(
    before: EngineView<usize>,
    webhook_idx: usize,
    update: RateUpdate,
    now: int,
    after: EngineView<usize>,
    i: int,
    b: int,
)
    requires
        before.pools.len() == 2,
        webhook_told(before, webhook_idx, update, now, after),
        0 <= i < before.pools[0].len(),
        before.pools[0][i].key == webhook_idx,
        forall|j: int| 0 <= j < i ==> (#[trigger] before.pools[0][j]).key != webhook_idx,
        0 <= b < before.pools[0][i].buckets.len(),
        before.pools[0][i].buckets[b].label == "webhook"@,
        before.pools[0][i].buckets[b].interval >= 0,
    ensures
        update.webhook matches Some((remaining, limit)) ==> (limit >= 1
            ==> after.pools[0][i].buckets[b].tat >= now + before.pools[0][i].buckets[b].interval * (
        limit - remaining)),
        update.webhook is None ==> after == before,
{
    if let Some((remaining, limit)) = update.webhook {
        if limit >= 1 {
            law_a_reading_is_a_debt(
                before,
                0,
                webhook_idx,
                "webhook"@,
                remaining as int,
                limit as int,
                now,
                after,
                i,
                b,
            );
        }
    }
}

/// A response from the global limit counts for the egress that it came through: a
/// whole second of it was spent. Any other response says nothing of an egress.
pub proof fn law_global_responses_hold_their_egress_back(
    before: EngineView<usize>,
    egress_idx: usize,
    update: RateUpdate,
    now: int,
    after: EngineView<usize>,
    i: int,
    b: int,
)
    requires
        before.pools.len() == 2,
        global_told(before, egress_idx, update, now, after),
        0 <= i < before.pools[1].len(),
        before.pools[1][i].key == egress_idx,
        forall|j: int| 0 <= j < i ==> (#[trigger] before.pools[1][j]).key != egress_idx,
        0 <= b < before.pools[1][i].buckets.len(),
        before.pools[1][i].buckets[b].label == "global"@,
        before.pools[1][i].buckets[b].interval >= 0,
    ensures
        update.global ==> after.pools[1][i].buckets[b].tat >= now
            + before.pools[1][i].buckets[b].interval * 50,
        !update.global ==> after == before,
{
    if update.global {
        law_a_reading_is_a_debt(
            before,
            1,
            egress_idx,
            "global"@,
            0,
            GLOBAL_CAPACITY as int,
            now,
            after,
            i,
            b,
        );
    }
}

/// The last of the webhooks with an id is the one that it names.
pub proof fn law_the_last_webhook_counts(webhooks: Seq<Webhook>, id: Seq<char>, i: int, j: int)
    requires
        is_webhook_index(webhooks, id, i),
        0 <= j < webhooks.len(),
        webhooks[j].id@ == id,
    ensures
        0 <= i < webhooks.len(),
        webhooks[i].id@ == id,
        j <= i,
{
}

/// A proxy that can be used is one that the client takes, under one of the four
/// schemes, which stands before the first `://` of its URL.
pub proof fn law_usable_proxies_have_their_scheme(url: Seq<char>)
    ensures
        proxy_usable(url) ==> proxy_url_accepted(url) && exists|scheme: Seq<char>| #[trigger]
            leads_url(url, scheme) && (scheme == "http"@ || scheme == "https"@ || scheme
                == "socks5"@ || scheme == "socks5h"@),
        forall|error: ProxyError| #[trigger]
            proxy_refused(url, error) ==> !proxy_usable(url),
{
    if proxy_usable(url) {
        let scheme = choose|scheme: Seq<char>| #[trigger]
            is_scheme(url, scheme) && supported_scheme(scheme);
        reveal_strlit("http");
        reveal_strlit("https");
        reveal_strlit("socks5");
        reveal_strlit("socks5h");
        reveal_strlit("://");
        assert(scheme.len() > 0);
        assert forall|k: int| 0 <= k < scheme.len() implies #[trigger] url.subrange(k, k + 3)
            != "://"@ by {
            assert(!occurs_at(url, "://"@, k));
        }
        assert(leads_url(url, scheme));
    }
    assert forall|error: ProxyError| #[trigger] proxy_refused(url, error) implies !proxy_usable(
        url,
    ) by {
        if proxy_usable(url) {
            let scheme = choose|scheme: Seq<char>| #[trigger]
                is_scheme(url, scheme) && supported_scheme(scheme);
            if error is UnsupportedScheme {
                lemma_scheme_is_unique(url, scheme, error->UnsupportedScheme_0@);
            }
        }
    }
}

/// Whether the URL starts with the scheme and `://`, and holds none before.
pub open spec fn leads_url(url: Seq<char>, scheme: Seq<char>) -> bool {
    &&& scheme.len() + 3 <= url.len()
    &&& url.take(scheme.len() as int) == scheme
    &&& url.subrange(scheme.len() as int, scheme.len() as int + 3) == "://"@
    &&& forall|k: int|
        0 <= k < scheme.len() ==> #[trigger] url.subrange(k, k + 3) != "://"@
}

/// A URL that a supported scheme leads, and that the client takes, can be used.
pub proof fn law_supported_proxies_are_usable(url: Seq<char>, scheme: Seq<char>)
    requires
        leads_url(url, scheme),
        scheme == "http"@ || scheme == "https"@ || scheme == "socks5"@ || scheme == "socks5h"@,
        proxy_url_accepted(url),
    ensures
        proxy_usable(url),
{
    reveal_strlit("://");
    assert(occurs_at(url, "://"@, scheme.len() as int));
    assert forall|k: int| 0 <= k < scheme.len() implies !occurs_at(url, "://"@, k) by {
        assert(url.subrange(k, k + 3) != "://"@);
    }
    assert(is_scheme(url, scheme));
}

/// A store is owed: with a webhook, proxies that can all be used, and frames that
/// hold more than their tag, it is made, and has exactly these settings.
pub proof fn law_good_settings_make_a_store(
    webhooks: Seq<Webhook>,
    frame_size: usize,
    proxy_urls: Seq<Seq<char>>,
    created: Result<StorageBackend, StoreError>,
)
    requires
        is_created(webhooks, frame_size, proxy_urls, created),
    ensures
        created is Ok <==> webhooks.len() > 0 && frame_size > 16 && forall|i: int|
            0 <= i < proxy_urls.len() ==> proxy_usable(#[trigger] proxy_urls[i]),
        created matches Ok(store) ==> {
            &&& store.webhooks@ == webhooks
            &&& store.frame_size == frame_size
            &&& store.proxy_urls@.len() == proxy_urls.len()
            &&& forall|i: int|
                0 <= i < proxy_urls.len() ==> (#[trigger] store.proxy_urls@[i])@ == proxy_urls[i]
        },
        created == Err::<StorageBackend, StoreError>(StoreError::NoWebhooks) <==> webhooks.len()
            == 0,
{
    if created is Ok {
        let store = created->Ok_0;
        let urls = store.proxy_urls@.map_values(|url: String| url@);
        assert forall|i: int| 0 <= i < proxy_urls.len() implies (
        #[trigger] store.proxy_urls@[i])@ == proxy_urls[i] by {
            assert(urls[i] == store.proxy_urls@[i]@);
        }
    }
}

proof fn lemma_query_of(base: Seq<char>, query: Seq<char>)
    requires
        !base.contains('?'),
        !query.contains('?'),
    ensures
        pieces(base.push('?') + query, '?') == seq![base, query],
{
    lemma_pieces_join(base, '?', query);
    lemma_one_piece(base, '?');
    lemma_one_piece(query, '?');
    assert(seq![base] + seq![query] =~= seq![base, query]);
}

proof fn lemma_expiry_shifts(first: Seq<char>, pairs: Seq<Seq<char>>, i: int)
    requires
        0 <= i,
    ensures
        expiry_among(seq![first] + pairs, i + 1) == expiry_among(pairs, i),
    decreases pairs.len() - i,
{
    let all = seq![first] + pairs;
    if i < pairs.len() {
        assert(all[i + 1] == pairs[i]);
        lemma_expiry_shifts(first, pairs, i + 1);
    }
}

/// The expiry promise: a URL carries the expiry that the `ex` parameter at the
/// start of its query writes in hexadecimal. A parameter before it says nothing of
/// the expiry, and a URL without a query, or with no such parameter, has none.
pub proof fn law_expiry_is_the_ex_parameter(
    base: Seq<char>,
    value: Seq<char>,
    pair: Seq<char>,
    query: Seq<char>,
)
    requires
        !base.contains('?'),
        !value.contains('?') && !value.contains('&'),
        !pair.contains('?') && !pair.contains('&'),
        !query.contains('?'),
    ensures
        expiry(base) is None,
        expiry(base.push('?') + ("ex="@ + value)) == parsed(value, 16, u64::MAX as int),
        expiry(base.push('?') + (("ex="@ + value).push('&') + query)) == parsed(
            value,
            16,
            u64::MAX as int,
        ),
        !starts_with(pair, "ex="@) ==> {
            &&& expiry(base.push('?') + pair) is None
            &&& expiry(base.push('?') + (pair.push('&') + query)) == expiry(
                base.push('?') + query,
            )
        },
{
    reveal_strlit("ex=");
    let told = "ex="@ + value;
    lemma_one_piece(base, '?');
    assert(!told.contains('?') && !told.contains('&')) by {
        if told.contains('?') {
            let k = choose|k: int| 0 <= k < told.len() && told[k] == '?';
            assert(k >= 3 && value[k - 3] == '?');
        }
        if told.contains('&') {
            let k = choose|k: int| 0 <= k < told.len() && told[k] == '&';
            assert(k >= 3 && value[k - 3] == '&');
        }
    }
    assert(told.take(3) =~= "ex="@);
    assert(told.skip(3) =~= value);
    assert(starts_with(told, "ex="@));
    lemma_query_of(base, told);
    lemma_one_piece(told, '&');
    lemma_longer_query(told, query);
    lemma_query_of(base, told.push('&') + query);
    lemma_pieces_join(told, '&', query);
    assert((pieces(told, '&') + pieces(query, '&'))[0] == told);
    if !starts_with(pair, "ex="@) {
        lemma_query_of(base, pair);
        lemma_one_piece(pair, '&');
        assert(expiry_among(seq![pair], 1) is None);
        lemma_longer_query(pair, query);
        lemma_query_of(base, pair.push('&') + query);
        lemma_query_of(base, query);
        lemma_pieces_join(pair, '&', query);
        let all = seq![pair] + pieces(query, '&');
        assert(all[0] == pair);
        lemma_expiry_shifts(pair, pieces(query, '&'), 0);
    }
}

proof fn lemma_longer_query(pair: Seq<char>, query: Seq<char>)
    requires
        !pair.contains('?'),
        !query.contains('?'),
    ensures
        !(pair.push('&') + query).contains('?'),
{
    let whole = pair.push('&') + query;
    if whole.contains('?') {
        let k = choose|k: int| 0 <= k < whole.len() && whole[k] == '?';
        if k < pair.len() {
            assert(pair[k] == '?');
        } else {
            assert(k > pair.len());
            assert(query[k - pair.len() - 1] == '?');
        }
    }
}

/// What follows a second question mark is not part of the query.
pub proof fn law_the_query_ends_at_a_question_mark(
    base: Seq<char>,
    query: Seq<char>,
    tail: Seq<char>,
)
    requires
        !base.contains('?'),
        !query.contains('?'),
    ensures
        expiry((base.push('?') + query).push('?') + tail) == expiry(base.push('?') + query),
{
    let url = base.push('?') + query;
    lemma_query_of(base, query);
    lemma_pieces_join(url, '?', tail);
    lemma_pieces_not_empty(tail, '?');
    let parts = pieces(url, '?') + pieces(tail, '?');
    assert(parts[1] == query);
}

/// A response says success exactly from two hundred up to two hundred and
/// ninety-nine.
pub proof fn law_success_is_in_the_two_hundreds(status: u16)
    ensures
        success(status) <==> status / 100 == 2,
{
}

/// The URL of an attachment is the attachment's, letter by letter, and lasts as long
/// as its query says.
pub proof fn law_attachment_urls_keep_their_expiry(url: SignedUrl, attachment: Seq<char>)
    requires
        is_attachment_url(url, attachment),
    ensures
        url@.value == attachment,
        url@.expires_at is Some <==> expiry(attachment) is Some,
        url@.expires_at matches Some(time) ==> expiry(attachment) == Some(time as int),
{
}

/// A response counts against the global limit exactly when its header says true, in
/// capitals or not.
pub proof fn law_global_limits_are_told(headers: RateHeaders)
    ensures
        match headers.global {
            Some(value) => is_global(headers) <==> {
                &&& value@.len() == 4
                &&& value@[0] == 't' || value@[0] == 'T'
                &&& value@[1] == 'r' || value@[1] == 'R'
                &&& value@[2] == 'u' || value@[2] == 'U'
                &&& value@[3] == 'e' || value@[3] == 'E'
            },
            None => !is_global(headers),
        },
{
    reveal_strlit("true");
    if let Some(value) = headers.global {
        law_case_is_all_that_is_ignored(value@, "true"@);
        assert("true"@ =~= seq!['t', 'r', 'u', 'e']);
    }
}

} // verus!
