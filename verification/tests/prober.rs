use scraper::Html;
use zones::domain::Domain;
use zones::parsers::{describe_page, describe_text, MAX_PAGE_BYTES};
use zones::prober::{dispatch, failure_messages, min_interval_ms, pacing_delay, probe_url,
    status_message, AfterSelection, ProbeError, Probing, Selecting, Selection, ERROR_BUDGET,
    RATE_LIMIT, STATUS_OK};
use zones::text::decimal;
use zones::Site;

const PAGE: &str = r#"<html><head><title>Home</title>
    <meta charset="utf-8"><meta name="Description" content="about us">
    </head><body><p>text</p></body></html>"#;

fn select(run: Selecting, answer: Selection) -> Selecting {
    match run.on_selection(answer) {
        AfterSelection::Select(next) => next,
        other => panic!("expected another selection, got {:?}", other),
    }
}

fn probe(run: Selecting, record: Domain) -> Probing {
    match run.on_selection(Selection::Record(record)) {
        AfterSelection::Probe(probing) => probing,
        other => panic!("expected a probe, got {:?}", other),
    }
}

#[test]
fn address_is_protocol_and_domain() {
    assert_eq!("http://example.ru", probe_url("http://", "example.ru"));
    assert_eq!("https://example.ru", probe_url("https://", "example.ru"));
}

#[test]
fn page_is_described_by_its_title_and_metadata() {
    let site = describe_text("http://example.ru/".to_string(), PAGE).unwrap();
    assert_eq!("http://example.ru/", site.url);
    assert_eq!(Some("Home".to_string()), site.title);
    assert_eq!(Some("utf-8".to_string()), site.charset);
    assert_eq!(Some("about us".to_string()), site.description);
    assert_eq!(None, site.keywords);
    let same = describe_page("http://example.ru/".to_string(), &Html::parse_document(PAGE));
    assert_eq!(site.title, same.title);
    assert_eq!(site.charset, same.charset);
    assert_eq!(site.description, same.description);
}

#[test]
fn only_status_200_yields_a_site() {
    assert_eq!(200, STATUS_OK);
    let site = dispatch("https://example.ru/".to_string(), 200, Some(PAGE)).unwrap();
    assert_eq!("https://example.ru/", site.url);
    assert_eq!(Some("Home".to_string()), site.title);
    assert!(dispatch("https://example.ru/".to_string(), 404, Some(PAGE)).is_none());
    assert!(dispatch("https://example.ru/".to_string(), 301, Some(PAGE)).is_none());
    assert!(dispatch("https://example.ru/".to_string(), 201, Some(PAGE)).is_none());
    assert!(dispatch("https://example.ru/".to_string(), 200, None).is_none());
    let bare = dispatch("u".to_string(), 200, Some("")).unwrap();
    assert_eq!("u", bare.url);
    assert!(bare.title.is_none() && bare.charset.is_none());
}

#[test]
fn run_stops_at_the_tenth_failure_of_the_store() {
    assert_eq!(10, ERROR_BUDGET);
    let mut run = Selecting::new();
    assert_eq!(0, run.errors());
    for failed in 1..10 {
        run = select(run, Selection::Failed);
        assert_eq!(failed, run.errors());
        run = select(run, Selection::Nothing);
        assert_eq!(failed, run.errors());
    }
    assert!(matches!(run.on_selection(Selection::Failed), AfterSelection::Stop));
}

#[test]
fn refused_records_count_against_the_budget() {
    let mut run = Selecting::new();
    for failed in 1..10 {
        let probing = probe(run, Domain::new(format!("d{}.ru", failed)));
        let (storing, record) = probing.on_probed(None, None);
        assert!(record.lookup);
        run = storing.on_stored(false).unwrap();
        assert_eq!(failed, run.errors());
    }
    let probing = probe(run, Domain::new("last.ru".to_string()));
    let (storing, _) = probing.on_probed(None, None);
    assert!(storing.on_stored(false).is_none());
}

#[test]
fn stored_record_costs_nothing() {
    let run = select(Selecting::new(), Selection::Failed);
    let probing = probe(run, Domain::new("a.ru".to_string()));
    assert_eq!("a.ru", probing.domain());
    assert_eq!("http://a.ru", probing.http_url());
    assert_eq!("https://a.ru", probing.https_url());
    let site = Site { url: "https://a.ru/".to_string(), ..Site::default() };
    let (storing, record) = probing.on_probed(None, Some(site));
    assert!(record.lookup && record.success);
    assert!(record.http.is_none());
    assert_eq!("https://a.ru/", record.https.as_ref().unwrap().url);
    assert!(!record.awaits_lookup());
    let run = storing.on_stored(true).unwrap();
    assert_eq!(1, run.errors());
}

#[test]
fn probed_or_removed_record_is_not_probed() {
    let mut probed = Domain::new("a.ru".to_string());
    probed.complete_lookup(None, None);
    let run = select(Selecting::new(), Selection::Record(probed));
    assert_eq!(0, run.errors());
    let mut removed = Domain::new("b.ru".to_string());
    removed.removed = true;
    let run = select(run, Selection::Record(removed));
    assert_eq!(0, run.errors());
}

#[test]
fn wait_fills_the_interval_up() {
    assert_eq!(10, RATE_LIMIT);
    assert_eq!(100, min_interval_ms(RATE_LIMIT));
    assert_eq!(1000, min_interval_ms(1));
    assert_eq!(333, min_interval_ms(3));
    assert_eq!(0, min_interval_ms(1001));
    assert_eq!(70, pacing_delay(100, 30));
    assert_eq!(100, pacing_delay(100, 0));
    assert_eq!(0, pacing_delay(100, 100));
    assert_eq!(0, pacing_delay(100, 250));
    assert_eq!(0, pacing_delay(0, 0));
}

#[test]
fn numbers_are_written_in_decimal() {
    assert_eq!("0", decimal(0));
    assert_eq!("7", decimal(7));
    assert_eq!("10", decimal(10));
    assert_eq!("404", decimal(404));
    assert_eq!("65535", decimal(u16::MAX));
}

#[test]
fn response_without_a_page_is_reported_with_its_status() {
    assert_eq!("http://a.ru/ -- Get response with code: 404", status_message("http://a.ru/", 404));
    assert_eq!(" -- Get response with code: 0", status_message("", 0));
}

#[test]
fn failed_probe_is_reported_reason_by_reason() {
    let none = ProbeError { request: false, timeout: false, status: None };
    assert_eq!(Vec::<String>::new(), failure_messages("http://a.ru", none));
    let all = ProbeError { request: true, timeout: true, status: Some(503) };
    assert_eq!(
        vec![
            "http://a.ru -- FAILED -- Error sending request".to_string(),
            "http://a.ru -- FAILED -- Time out".to_string(),
            "http://a.ru -- FAILED -- Http 503 error".to_string(),
        ],
        failure_messages("http://a.ru", all)
    );
    let late = ProbeError { request: false, timeout: true, status: None };
    assert_eq!(vec!["https://b.su -- FAILED -- Time out".to_string()],
        failure_messages("https://b.su", late));
}

#[test]
fn body_too_long_for_the_parser_yields_no_site() {
    assert_eq!(256 * 1024 * 1024, MAX_PAGE_BYTES);
    let body = "a".repeat(MAX_PAGE_BYTES + 1);
    assert!(describe_text("http://a.ru/".to_string(), &body).is_none());
    assert!(dispatch("http://a.ru/".to_string(), 200, Some(&body)).is_none());
}
