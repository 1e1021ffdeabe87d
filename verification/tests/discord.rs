use bytes::Bytes;
use frame_store::discord::{
    check_proxy, create, create_with_proxies, create_with_proxy, first_attachment, is_dead,
    is_deleted, judge_proxy, max_physical_bytes_per_segment, message_url, parse_expiry, post_url, quota_engine,
    range_header, rate_update, resolved_url, stored_segment, update_from_headers, upload_outcome,
    webhook_index, LastChunkGate, ProxyError, RateHeaders, RateUpdate, ResolveAttempts,
    ResolveStep, StoreError, UploadOutcome,
};
use frame_store::quota::{Bucket, Pin, Pool, QuotaEngine};
use frame_store::quota_handle::{CommitGate, QuotaHandle};
use frame_store::webhook::{format_uri, parse_uri, Webhook};

const T0: u64 = 1_000_000_000_000;
const MS: u64 = 1_000_000;

fn webhook() -> Vec<Webhook> {
    webhooks(&["1"])
}

fn webhooks(ids: &[&str]) -> Vec<Webhook> {
    ids.iter()
        .map(|id| Webhook {
            id: (*id).to_owned(),
            token: "tok".to_owned(),
        })
        .collect()
}

#[test]
fn accepts_supported_proxy_schemes_and_empty_proxy_list() {
    let store = create_with_proxies(webhook(), 24, &[]).unwrap();
    assert_eq!(store.api_client_count(), 1);

    for proxy in [
        "http://127.0.0.1:8080",
        "https://127.0.0.1:8443",
        "socks5://127.0.0.1:1080",
        "socks5h://127.0.0.1:1080",
    ] {
        let proxies = vec![proxy.to_owned()];
        create_with_proxies(webhook(), 24, &proxies).unwrap();
    }
}

#[test]
fn accepts_multiple_proxy_urls() {
    let proxies = vec![
        "http://127.0.0.1:8080".to_owned(),
        "socks5h://127.0.0.1:1080".to_owned(),
    ];
    let store = create_with_proxies(webhook(), 24, &proxies).unwrap();
    assert_eq!(store.api_client_count(), 2);
    assert_eq!(store.proxy_urls, proxies);
}

#[test]
fn rejects_unknown_or_invalid_proxy_urls() {
    for proxy in ["socks4://127.0.0.1:1080", "ftp://127.0.0.1", "http://"] {
        let proxies = vec![proxy.to_owned()];
        assert!(create_with_proxies(webhook(), 24, &proxies).is_err());
    }
}

#[test]
fn names_why_a_store_is_refused() {
    assert_eq!(create(vec![], 24).err(), Some(StoreError::NoWebhooks));
    assert_eq!(
        create(webhook(), 16).err(),
        Some(StoreError::FrameTooSmall)
    );
    assert_eq!(
        create_with_proxy(webhook(), 24, Some("ftp://127.0.0.1")).err(),
        Some(StoreError::Proxy(ProxyError::UnsupportedScheme("ftp".to_owned())))
    );
    assert_eq!(
        create_with_proxy(webhook(), 24, Some("http://")).err(),
        Some(StoreError::Proxy(ProxyError::InvalidUrl))
    );
    let store = create_with_proxy(webhook(), 24, None).unwrap();
    assert_eq!((store.frame_size, store.proxy_urls.len()), (24, 0));
    assert_eq!(
        ProxyError::UnsupportedScheme("ftp".to_owned()).message(),
        Some("unsupported proxy scheme 'ftp'; expected http, https, socks5, or socks5h".to_owned())
    );
    assert_eq!(max_physical_bytes_per_segment(65_536), 9_830_400);
}

#[test]
fn gated_body_holds_last_chunk_until_commit() {
    let mut quota = QuotaHandle::new(QuotaEngine::new(
        vec![Bucket::new("global", 1, 50 * MS, 0, T0)],
        Vec::<Pool<usize>>::new(),
    ));
    let mut spent = quota.reserve(&[], T0 + 1000 * MS, 1000 * MS, T0).unwrap();
    assert_eq!(quota.commit(&mut spent, T0), CommitGate::Authorized);
    let mut reservation = quota.reserve(&[], T0 + 1000 * MS, 1000 * MS, T0).unwrap();

    let mut gate = LastChunkGate::new();
    assert_eq!(gate.push(Bytes::from_static(b"a")), None);
    assert_eq!(
        gate.push(Bytes::from_static(b"b")),
        Some(Bytes::from_static(b"a"))
    );
    assert_eq!(
        quota.commit(&mut reservation, T0),
        CommitGate::WaitUntil(T0 + 50 * MS)
    );
    assert_eq!(
        quota.commit(&mut reservation, T0 + 50 * MS),
        CommitGate::Authorized
    );
    assert_eq!(gate.finish(), Some(Bytes::from_static(b"b")));
    assert_eq!(LastChunkGate::new().finish(), None);
}

#[test]
fn uploads_then_resolves_and_downloads_a_range() {
    assert_eq!(
        post_url("http://base", "1", "tok"),
        "http://base/webhooks/1/tok?wait=true"
    );
    assert_eq!(upload_outcome(200), UploadOutcome::Stored);
    let attachments = || vec!["http://base/cdn?ex=6a000000".to_owned()];
    let stored = stored_segment(&webhook()[0], "msg1", attachments()).unwrap();
    assert_eq!(stored.uri, "discord://1/tok/msg1");
    let cached = stored.cached_url.unwrap();
    assert!(cached.as_str().ends_with("/cdn?ex=6a000000"));
    assert_eq!(cached.expires_at(), Some(1_778_384_896));

    let parsed = parse_uri("discord://1/tok/msg1").unwrap();
    assert_eq!(
        message_url("http://base", &parsed.id, &parsed.token, &parsed.message_id),
        "http://base/webhooks/1/tok/messages/msg1"
    );
    assert_eq!(ResolveAttempts::new().respond(200), ResolveStep::Resolved);
    assert_eq!(resolved_url(attachments()), Some(cached));
    assert_eq!(resolved_url(vec![]), None);
    assert_eq!(range_header(2, 8), "bytes=2-7");
}

#[test]
fn a_dead_webhook_errors_and_is_pruned() {
    let hooks = webhooks(&["1", "2"]);
    let mut quota = QuotaHandle::new(quota_engine(hooks.len(), 1, T0));
    let demand = [Pin::Free, Pin::Free];
    let mut first = quota.reserve(&demand, T0, 0, T0).unwrap();
    assert_eq!(first.picks, vec![0, 0]);
    assert_eq!(upload_outcome(404), UploadOutcome::Dead);
    quota.set_alive(0, &first.picks[0], false);
    quota.release(&mut first);

    let second = quota.reserve(&demand, T0, 0, T0).unwrap();
    assert_eq!(second.picks, vec![1, 0]);
    let hook = &hooks[second.picks[0]];
    assert_eq!(
        format_uri(&hook.id, &hook.token, "msg1"),
        "discord://2/tok/msg1"
    );
}

#[test]
fn judges_statuses() {
    assert_eq!(
        [401, 403, 404, 410, 429, 500, 200].map(is_dead),
        [true, true, true, false, false, false, false]
    );
    assert_eq!(upload_outcome(500), UploadOutcome::Failed);
    assert_eq!(upload_outcome(204), UploadOutcome::Stored);
    assert!(is_deleted(204));
    assert!(is_deleted(404));
    assert!(!is_deleted(500));
}

#[test]
fn resolving_gives_up_after_four_limits() {
    let mut attempts = ResolveAttempts::new();
    for _ in 0..3 {
        assert_eq!(attempts.respond(429), ResolveStep::Retry);
    }
    assert_eq!(attempts.respond(429), ResolveStep::Exhausted);
    assert_eq!(ResolveAttempts::new().respond(500), ResolveStep::Failed);
}

#[test]
fn finds_webhooks_and_expiries() {
    let hooks = webhooks(&["1", "2", "1"]);
    assert_eq!(webhook_index(&hooks, "1"), Some(2));
    assert_eq!(webhook_index(&hooks, "2"), Some(1));
    assert_eq!(webhook_index(&hooks, "3"), None);
    assert_eq!(parse_expiry("http://x/y?a=1&ex=ff&b"), Some(255));
    assert_eq!(parse_expiry("http://x/y?ex=zz&ex=ff"), None);
    assert_eq!(parse_expiry("http://x/ex=ff"), None);
    assert_eq!(first_attachment(vec![]), None);
}

fn headers<'a>(
    limit: Option<&'a str>,
    remaining: Option<&'a str>,
    global: Option<&'a str>,
) -> RateHeaders<'a> {
    RateHeaders {
        limit,
        remaining,
        global,
    }
}

#[test]
fn reads_rate_headers() {
    assert_eq!(
        rate_update(headers(Some("5"), Some("3"), None), 200),
        RateUpdate {
            webhook: Some((3, 5)),
            global: false,
        }
    );
    assert_eq!(
        rate_update(headers(Some("5"), Some("3"), Some("true")), 429),
        RateUpdate {
            webhook: Some((3, 5)),
            global: true,
        }
    );
    assert_eq!(
        rate_update(headers(Some("5"), None, Some("True")), 200),
        RateUpdate {
            webhook: Some((4, 5)),
            global: true,
        }
    );
    assert_eq!(
        rate_update(headers(None, None, None), 429),
        RateUpdate {
            webhook: Some((0, 5)),
            global: false,
        }
    );
    assert_eq!(
        rate_update(headers(None, Some("3"), None), 200),
        RateUpdate {
            webhook: None,
            global: false,
        }
    );
}

#[test]
fn rate_headers_tighten_the_quota() {
    let mut quota = QuotaHandle::new(quota_engine(1, 1, T0));
    let demand = [Pin::Free, Pin::Free];
    let mut held = quota.reserve(&demand, T0, 0, T0).unwrap();
    update_from_headers(
        &mut quota,
        0,
        0,
        RateUpdate {
            webhook: Some((0, 5)),
            global: false,
        },
        T0,
    );
    assert_eq!(
        quota.commit(&mut held, T0),
        CommitGate::WaitUntil(T0 + 400 * MS)
    );
}

#[test]
fn proxies_are_judged_by_scheme_and_client() {
    assert_eq!(judge_proxy("socks5h://host:1", true), Ok(()));
    assert_eq!(judge_proxy("https://host", false), Err(ProxyError::InvalidUrl));
    assert_eq!(
        judge_proxy("host:80", true),
        Err(ProxyError::UnsupportedScheme(String::new()))
    );
    assert_eq!(
        judge_proxy("ftp://host", false),
        Err(ProxyError::UnsupportedScheme("ftp".to_owned()))
    );
    assert_eq!(check_proxy("http://127.0.0.1:8080"), Ok(()));
    assert_eq!(check_proxy("http://"), Err(ProxyError::InvalidUrl));
    assert_eq!(
        check_proxy("socks4://127.0.0.1:1080"),
        Err(ProxyError::UnsupportedScheme("socks4".to_owned()))
    );
}
