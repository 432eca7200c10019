use zones::domain::Domain;
use zones::Site;

fn site(url: &str, title: Option<&str>, description: Option<&str>) -> Site {
    Site {
        url: url.to_string(),
        title: title.map(String::from),
        charset: None,
        description: description.map(String::from),
        keywords: None,
    }
}

#[test]
fn fresh_record_has_every_flag_down() {
    let record = Domain::new("example.ru".to_string());
    assert_eq!("example.ru", record.url);
    assert!(record.http.is_none());
    assert!(record.https.is_none());
    assert!(!record.lookup);
    assert!(!record.success);
    assert!(!record.removed);
    assert!(record.awaits_lookup());
}

#[test]
fn setting_a_site_marks_success() {
    let mut record = Domain::new("example.ru".to_string());
    record.set_http_site(site("http://example.ru/", Some("T"), None));
    assert!(record.success);
    assert_eq!("http://example.ru/", record.http.as_ref().unwrap().url);
    assert!(record.https.is_none());
    assert!(!record.lookup);

    let mut other = Domain::new("example.su".to_string());
    other.set_https_site(site("https://example.su/", None, None));
    assert!(other.success);
    assert!(other.http.is_none());
    assert_eq!("https://example.su/", other.https.as_ref().unwrap().url);
}

#[test]
fn completed_lookup_is_never_due_again() {
    let mut found = Domain::new("a.ru".to_string());
    found.complete_lookup(None, Some(site("https://a.ru/", Some("A"), None)));
    assert!(found.lookup);
    assert!(found.success);
    assert!(found.http.is_none());
    assert_eq!(Some("A".to_string()), found.https.as_ref().unwrap().title);
    assert!(!found.awaits_lookup());

    let mut silent = Domain::new("b.ru".to_string());
    silent.complete_lookup(None, None);
    assert!(silent.lookup);
    assert!(!silent.success);
    assert!(silent.http.is_none());
    assert!(silent.https.is_none());
    assert!(!silent.awaits_lookup());
}

#[test]
fn removed_record_is_not_due() {
    let mut record = Domain::new("a.ru".to_string());
    record.removed = true;
    assert!(!record.awaits_lookup());
}

#[test]
fn report_of_an_empty_record() {
    let record = Domain::default();
    assert_eq!("url:\nhttp:\nhttps:\nlookup: false\nsuccess: false\n", record.to_text());
}

#[test]
fn report_of_a_probed_record() {
    let mut record = Domain::new("example.ru".to_string());
    record.complete_lookup(Some(site("http://example.ru/", Some("T"), Some("d"))), None);
    let expected = "url: example.ru\n\
                    http:\n\
                    \x20   url: http://example.ru/\n\
                    \x20   title: T\n\
                    \x20   charset: \n\
                    \x20   description: d\n\
                    \x20   keywords: \n\
                    https:\n\
                    lookup: true\n\
                    success: true\n";
    assert_eq!(expected, record.to_text());
}

#[test]
fn report_lists_both_protocols() {
    let mut record = Domain::new("x.su".to_string());
    let mut secure = site("https://x.su/", None, None);
    secure.charset = Some("utf-8".to_string());
    secure.keywords = Some("k1, k2".to_string());
    record.complete_lookup(Some(site("http://x.su/", None, None)), Some(secure));
    let expected = "url: x.su\nhttp:\n    url: http://x.su/\n    title: \n    charset: \n    \
                    description: \n    keywords: \nhttps:\n    url: https://x.su/\n    title: \n    \
                    charset: utf-8\n    description: \n    keywords: k1, k2\nlookup: true\nsuccess: true\n";
    assert_eq!(expected, record.to_text());
}

#[test]
fn copies_are_equal_in_every_field() {
    let mut record = Domain::new("a.ru".to_string());
    record.complete_lookup(Some(site("http://a.ru/", Some("A"), Some("d"))), None);
    record.removed = true;
    let copy = record.clone();
    assert_eq!(record.to_text(), copy.to_text());
    assert_eq!(record.removed, copy.removed);
    assert_eq!(record.http.as_ref().unwrap().description, copy.http.as_ref().unwrap().description);
    let blank = Site::default();
    assert_eq!("", blank.url);
    assert!(blank.title.is_none() && blank.charset.is_none());
    assert!(blank.description.is_none() && blank.keywords.is_none());
}
