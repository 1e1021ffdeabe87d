use frame_store::measure::{
    answers_range, civil_date, csv, csv_file_name, csv_header, csv_row, day_of, sample_host,
    MeasuredTransfer, ResponseLabels, SampleGuard, SampleNumbers, TransferLabels, TransferSample,
    TransferStep,
};

#[test]
fn formats_dates_and_csv_fields() {
    assert_eq!(civil_date(0), "1970-01-01");
    assert_eq!(civil_date(20_622), "2026-06-18");
    assert_eq!(csv("a,\"b\""), "\"a,\"\"b\"\"\"");
}

#[test]
fn dates_follow_the_calendar() {
    assert_eq!(civil_date(-1), "1969-12-31");
    assert_eq!(civil_date(11_016), "2000-02-29");
    assert_eq!(civil_date(11_017), "2000-03-01");
    assert_eq!(civil_date(47_541), "2100-03-01");
    assert_eq!(day_of(86_400_000 * 20_622 + 5), "2026-06-18");
    assert_eq!(csv_file_name("2026-06-18"), "transfers-2026-06-18.csv");
}

fn sample() -> TransferSample {
    TransferSample {
        timestamp_ms: 1,
        session_id: "s".to_owned(),
        object_id: "o,1".to_owned(),
        host: "h".to_owned(),
        range_start: 0,
        range_end: 72,
        frame_count: 3,
        window_frames: 4,
        cache_status: String::new(),
        age: String::new(),
        server_timing: String::new(),
        url_resolve: Some(5),
        headers_ttfb: None,
        first_byte: None,
        body: None,
        total: 0,
        bytes_received: 0,
        result: String::new(),
    }
}

#[test]
fn samples_are_handed_out_once() {
    let mut guard = SampleGuard::new(sample());
    let text = |value: &str| value.to_owned();
    guard.headers(10, text("HIT"), text("7"), text("cdn"));
    guard.chunk(24, 30);
    guard.chunk(48, 40);
    let done = guard.complete(100).unwrap();
    assert_eq!(done.result, "ok");
    assert_eq!((done.headers_ttfb, done.first_byte), (Some(10), Some(30)));
    assert_eq!((done.body, done.total), (Some(70), 100));
    assert_eq!(done.bytes_received, 72);
    assert_eq!(done.cache_status, "HIT");
    assert!(guard.emit(200).is_none());

    let mut cancelled = SampleGuard::new(sample());
    assert_eq!(cancelled.emit(9).unwrap().result, "cancelled");
    let mut failed = SampleGuard::new(sample());
    failed.fail(text("boom"));
    assert_eq!(failed.emit(9).unwrap().result, "boom");
}

#[test]
fn rows_have_one_field_per_column() {
    let numbers = SampleNumbers {
        target_bps: "1.0".to_owned(),
        url_resolve_ms: "2.0".to_owned(),
        headers_ttfb_ms: String::new(),
        first_byte_ms: String::new(),
        body_ms: String::new(),
        total_ms: "3.0".to_owned(),
        effective_body_bps: String::new(),
    };
    assert_eq!(
        sample().csv(numbers),
        "1,s,\"o,1\",h,0,72,3,1.0,4,,,,2.0,,,,3.0,0,,"
    );
    assert_eq!(csv_header().split(',').count(), 20);
    assert_eq!(csv("plain"), "plain");
    assert_eq!(csv("a\nb"), "\"a\nb\"");
    assert_eq!(csv_row(&vec![]), "");
}

#[test]
fn whole_objects_answer_a_range_from_the_start() {
    assert!(answers_range(206, 5, 10, None));
    assert!(answers_range(200, 0, 10, Some(10)));
    assert!(!answers_range(200, 0, 10, Some(11)));
    assert!(!answers_range(200, 1, 10, Some(10)));
    assert!(!answers_range(404, 0, 10, Some(10)));
}

fn transfer() -> MeasuredTransfer {
    MeasuredTransfer::begin(
        TransferLabels {
            timestamp_ms: 1,
            session_id: "s".to_owned(),
            object_id: "o".to_owned(),
            window_frames: 4,
            url_resolve: Some(5),
        },
        "https://cdn.example.com:8443/attachments/1?ex=5",
        24,
        96,
        24,
    )
}

fn labels() -> ResponseLabels {
    ResponseLabels {
        cache_status: "HIT".to_owned(),
        age: "7".to_owned(),
        server_timing: String::new(),
    }
}

#[test]
fn transfers_are_sampled_whatever_becomes_of_them() {
    let mut read = transfer();
    assert_eq!(read.respond(10, 206, None, labels(), ""), TransferStep::Read);
    read.chunk(72, 20);
    let sample = read.complete(50).unwrap();
    assert_eq!(sample.host, "cdn.example.com");
    assert_eq!((sample.range_start, sample.range_end), (24, 96));
    assert_eq!((sample.frame_count, sample.bytes_received), (3, 72));
    assert_eq!((sample.body, sample.total), (Some(30), 50));
    assert_eq!((sample.result.as_str(), sample.age.as_str()), ("ok", "7"));
    assert!(read.abandon(60).is_none());

    let mut lost = transfer();
    lost.request_failed("no route");
    assert_eq!(lost.abandon(9).unwrap().result, "request: no route");

    let mut refused = transfer();
    assert_eq!(
        refused.respond(10, 404, None, labels(), "not found"),
        TransferStep::Refused
    );
    assert_eq!(refused.abandon(11).unwrap().result, "http: not found");

    let mut ignored = transfer();
    let text = "o: server ignored the Range request".to_owned();
    assert_eq!(
        ignored.respond(10, 200, Some(72), labels(), ""),
        TransferStep::Ignored(text.clone())
    );
    assert_eq!(ignored.abandon(11).unwrap().result, text);

    let mut broken = transfer();
    broken.respond(10, 206, None, labels(), "");
    broken.chunk(5, 20);
    broken.body_failed("reset");
    assert_eq!(broken.abandon(30).unwrap().result, "body: reset");
    assert_eq!(transfer().abandon(3).unwrap().result, "cancelled");
}

#[test]
fn samples_name_the_host_of_the_url() {
    let host = |url: &str| {
        let labels = TransferLabels {
            timestamp_ms: 1,
            session_id: "s".to_owned(),
            object_id: "o".to_owned(),
            window_frames: 4,
            url_resolve: None,
        };
        let mut transfer = MeasuredTransfer::begin(labels, url, 0, 24, 24);
        transfer.abandon(1).unwrap().host
    };
    assert_eq!(host("HTTPS://user@CDN.Example.com/a"), "cdn.example.com");
    assert_eq!(host("http://[::1]:80/"), "[::1]");
    assert_eq!(host("data:text/plain,x"), "");
    assert_eq!(host("no url"), "");
    assert_eq!(sample_host(Some("h".to_owned())), "h");
    assert_eq!(sample_host(None), "");
}
