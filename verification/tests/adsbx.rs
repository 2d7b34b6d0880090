use adsb_trip_journal::adsbx::{
    classify, parse_retry_after, AdsBxClient, AdsBxConfig, BatchStep, EndpointProbe, FetchOutcome, LiveBatch,
    ProbeReply,
};
use adsb_trip_journal::calendar::UtcDay;
use adsb_trip_journal::live::parse_live_aircraft;
use adsb_trip_journal::opensky_client::HeaderField;
use adsb_trip_journal::report::{endpoint_line, probe_lines};

fn config() -> AdsBxConfig {
    AdsBxConfig::from_settings(&None, &None, &None, &None, &None, &None)
}

#[test]
fn last_two_hex() {
    assert_eq!(AdsBxClient::last_two("abcdef"), "ef");
    assert_eq!(AdsBxClient::last_two("ab"), "ab");
    assert_eq!(AdsBxClient::last_two(" a "), "a");
    assert_eq!(AdsBxClient::last_two(""), "");
    assert_eq!(AdsBxClient::last_two("x\u{e9}"), "\u{e9}");
}

#[test]
fn hist_url_shape() {
    let c = AdsBxClient::new(config());
    let u = c.hist_url("A1B2C3", UtcDay::parse("2023-01-22").unwrap());
    assert!(u.ends_with("/traces-hist/2023/01/22/traces/c3/trace_full_a1b2c3.json"));
    assert!(u.starts_with("https://gateway.adsbexchange.com/api/aircraft/v2/traces-hist/"));
}

#[test]
fn classify_cursor_rules() {
    assert!(FetchOutcome::NotFound.advances_cursor());
    assert!(FetchOutcome::Success { body: vec![] }.advances_cursor());
    assert!(!FetchOutcome::Denied {
        status: 403,
        message: "no".into()
    }
    .advances_cursor());
    assert!(!FetchOutcome::RateLimited {
        retry_after: Some(30)
    }
    .advances_cursor());
}

#[test]
fn error_messages_of_fetches() {
    let said = |o: FetchOutcome| o.error_message();
    assert_eq!(
        said(FetchOutcome::Denied { status: 403, message: "no".into() }).as_deref(),
        Some("HTTP 403: no")
    );
    assert_eq!(
        said(FetchOutcome::RateLimited { retry_after: Some(30) }).as_deref(),
        Some("HTTP 429 retry-after=30s")
    );
    assert_eq!(said(FetchOutcome::RateLimited { retry_after: None }).as_deref(), Some("HTTP 429"));
    assert_eq!(
        said(FetchOutcome::Other { status: 500, message: "x".into() }).as_deref(),
        Some("HTTP 500: x")
    );
    assert!(said(FetchOutcome::NotFound).is_none());
    assert!(said(FetchOutcome::Success { body: vec![1] }).is_none());
}

#[test]
fn responses_by_status() {
    let long = vec![b'x'; 300];
    assert!(matches!(classify(204, vec![7], None), FetchOutcome::Success { body } if body == vec![7]));
    assert!(matches!(classify(404, vec![], None), FetchOutcome::NotFound));
    assert!(matches!(classify(402, long.clone(), None),
        FetchOutcome::Denied { status: 402, message } if message.len() == 200));
    assert!(matches!(classify(429, vec![], Some(5)),
        FetchOutcome::RateLimited { retry_after: Some(5) }));
    assert!(matches!(classify(500, vec![0xff, b'a'], None),
        FetchOutcome::Other { status: 500, message } if message == "\u{fffd}a"));
    assert!(FetchOutcome::Success { body: vec![] }.settles());
    assert!(!FetchOutcome::NotFound.settles());
    assert!(matches!(FetchOutcome::transport("gone"),
        FetchOutcome::Other { status: 0, message } if message == "transport: gone"));
    assert!(matches!(FetchOutcome::no_recent_urls(),
        FetchOutcome::Other { status: 0, message } if message == "no recent URLs"));
}

#[test]
fn retry_after_is_a_plain_number() {
    let text = |s: &str| parse_retry_after(&HeaderField::Text(s.into()));
    assert_eq!(text("30"), Some(30));
    assert_eq!(text("+7"), Some(7));
    assert_eq!(text("18446744073709551615"), Some(u64::MAX));
    assert_eq!(text("18446744073709551616"), None);
    for bad in ["", "+", "-1", "1.5", " 1", "++1", "Wed"] {
        assert_eq!(text(bad), None, "{bad}");
    }
    assert_eq!(parse_retry_after(&HeaderField::Absent), None);
    assert_eq!(parse_retry_after(&HeaderField::Opaque), None);
}

#[test]
fn live_and_recent_urls() {
    let mut cfg = config();
    cfg.live_base = "http://x//".into();
    let c = AdsBxClient::new(cfg);
    assert_eq!(c.live_url("abc"), "http://x/icao/abc");
    assert_eq!(c.live_batch_url(&vec!["a".into(), "b".into(), "c".into()]), "http://x/icao/a,b,c");
    assert_eq!(c.live_batch_url(&vec![]), "http://x/icao/");
    let urls = c.recent_urls("A1B2C3");
    assert_eq!(urls[0].0, "recent_trace");
    assert_eq!(urls[0].1, "http://x/traces/c3/trace_recent_a1b2c3.json");
    assert_eq!(urls[1].1, "http://x/traces/c3/trace_full_a1b2c3.json");
    assert_eq!(urls[2], ("api_trace".to_string(), "http://x/trace/a1b2c3.json".to_string()));
    assert_eq!(c.config().live_base, "http://x//");
}

#[test]
fn settings_fill_the_configuration() {
    let set = |s: &str| Some(s.to_string());
    let c = AdsBxConfig::from_settings(&set(" k "), &set("  "), &set(""), &set("L"), &None, &set("b"));
    assert_eq!(c.api_key.as_deref(), Some("k"));
    assert!(c.rapidapi_key.is_none());
    assert_eq!(c.rapidapi_host, "adsbexchange-com1.p.rapidapi.com");
    assert_eq!(c.live_base, "L");
    assert_eq!(c.hist_base, "https://gateway.adsbexchange.com/api/aircraft/v2");
    assert_eq!(c.s3_bucket.as_deref(), Some("b"));
    assert!(c.has_credentials());
    assert!(!config().has_credentials());
}

#[test]
fn probe_report_says_what_is_available() {
    let c = AdsBxClient::new(config());
    let ok = ProbeReply::Answer { status: 200, reason: "200 OK".into() };
    let denied = ProbeReply::Answer { status: 403, reason: "403 Forbidden".into() };
    let lost = ProbeReply::Failure { error: "refused".into() };
    let live = EndpointProbe::from_reply("live_icao", "u", &ok);
    let hist = EndpointProbe::from_reply("hist_trace", "u", &denied);
    let recent = vec![
        EndpointProbe::from_reply("recent_trace", "u", &lost),
        EndpointProbe::from_reply("recent_full", "u", &ok),
    ];
    assert_eq!(live.note, "200-class");
    assert_eq!(hist.note, "403 Forbidden");
    assert_eq!(recent[0].note, "transport: refused");
    assert_eq!(endpoint_line(&live), "  live_icao      status=200    ok=true  200-class");
    assert_eq!(
        endpoint_line(&recent[0]),
        "  recent_trace   status=\u{2014}      ok=false  transport: refused"
    );
    let r = c.probe_report("ABCDEF", UtcDay::parse("2024-01-15").unwrap(), live, recent, hist);
    assert_eq!(r.hex, "abcdef");
    assert_eq!(r.date, "2024-01-15");
    assert!(r.live_available && r.recent_available && !r.hist_available);
    assert_eq!(r.s3.note, "ADSBX_S3_BUCKET not set");
    assert!(r.s3.url.is_empty() && !r.s3.ok && r.s3.status.is_none());
    let lines = probe_lines(&r);
    assert_eq!(lines.len(), 8);
    assert_eq!(lines[0], "probe hex=abcdef date=2024-01-15 credentials=false");
    assert_eq!(lines[4], "  hist_trace     status=403    ok=false  403 Forbidden");
    assert_eq!(lines[6], "summary live=true recent=true hist=false");
    assert!(lines[7].starts_with("historical traces unavailable"));
}

#[test]
fn probe_report_names_the_bucket() {
    let mut cfg = config();
    cfg.s3_bucket = Some("b".into());
    let c = AdsBxClient::new(cfg);
    let probe = || {
        EndpointProbe::from_reply("x", "u", &ProbeReply::Failure { error: "refused".into() })
    };
    let date = UtcDay::parse("2024-01-15").unwrap();
    let r = c.probe_report("abcdef", date, probe(), Vec::new(), probe());
    assert_eq!(r.s3.name, "s3");
    assert_eq!(r.s3.url, "s3://b");
    assert_eq!(r.s3.note, "bucket configured; v1 does not list or download S3 objects");
}

#[test]
fn live_batch_gathers_chunks_of_forty() {
    let hexes: Vec<String> = (0..41).map(|i| format!("{i:06x}")).collect();
    let mut batch = LiveBatch::start(hexes);
    assert_eq!(batch.chunk().len(), 40);
    let body = br#"{"ac":[{"hex":"a1","lat":-5,"lon":1.5}]}"#.to_vec();
    assert!(matches!(batch.answered(FetchOutcome::Success { body }), BatchStep::More));
    assert_eq!(batch.chunk(), vec!["000028".to_string()]);
    let body = br#"{"ac":[{"hex":"b2"}]}"#.to_vec();
    assert!(matches!(batch.answered(FetchOutcome::Success { body }), BatchStep::More));
    assert!(batch.chunk().is_empty());
    let merged = match batch.finish().unwrap() {
        FetchOutcome::Success { body } => body,
        _ => panic!("no body"),
    };
    assert_eq!(merged, br#"{"ac":[{"hex":"a1","lat":-5,"lon":1.5},{"hex":"b2"}]}"#.to_vec());
    assert_eq!(parse_live_aircraft(&merged).unwrap().len(), 2);
}

#[test]
fn live_batch_ends_early() {
    let mut small = LiveBatch::start(vec!["a".into()]);
    let step = small.answered(FetchOutcome::Success { body: vec![1, 2] });
    assert!(matches!(step, BatchStep::Done(FetchOutcome::Success { body }) if body == vec![1, 2]));
    let hexes: Vec<String> = (0..50).map(|i| format!("{i}")).collect();
    let mut large = LiveBatch::start(hexes);
    assert!(matches!(large.answered(FetchOutcome::NotFound), BatchStep::Done(FetchOutcome::NotFound)));
    let body = match LiveBatch::start(vec![]).finish().unwrap() {
        FetchOutcome::Success { body } => body,
        _ => panic!("no body"),
    };
    assert_eq!(body, b"{\"ac\":[]}".to_vec());
    let mut odd = LiveBatch::start((0..50).map(|i| format!("{i}")).collect());
    assert!(matches!(odd.answered(FetchOutcome::Success { body: b"no json".to_vec() }), BatchStep::More));
}
