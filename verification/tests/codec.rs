use flate2::write::GzEncoder;
use flate2::Compression;
use std::io::Write;
use zones::codec::{extract_domains, line_domain, token_bounds, ZoneSnapshot};

fn names(list: &[&str]) -> Vec<String> {
    list.iter().map(|s| s.to_string()).collect()
}

fn gzip(data: &[u8]) -> Vec<u8> {
    let mut encoder = GzEncoder::new(Vec::new(), Compression::default());
    encoder.write_all(data).unwrap();
    encoder.finish().unwrap()
}

#[test]
fn first_word_of_a_line_is_the_domain() {
    assert_eq!(Some("example.ru".to_string()), line_domain(b"example.ru"));
    assert_eq!(Some("example.ru".to_string()), line_domain(b"example.ru\tREGRU-RU\t01.01.2020"));
    assert_eq!(Some("example.ru".to_string()), line_domain(b"  \texample.ru more words\r"));
    assert_eq!(Some("\u{43f}\u{440}.\u{440}\u{444}".to_string()),
        line_domain("\u{43f}\u{440}.\u{440}\u{444} x".as_bytes()));
}

#[test]
fn line_without_a_word_gives_nothing() {
    assert_eq!(None, line_domain(b""));
    assert_eq!(None, line_domain(b" \t\r"));
    assert_eq!(None, line_domain(b"\x0c"));
}

#[test]
fn line_that_is_not_text_gives_nothing() {
    assert_eq!(None, line_domain(b"\xff\xfe.ru rest"));
    assert_eq!(None, line_domain(b"good.ru \xc3"));
}

#[test]
fn token_bounds_skip_leading_space() {
    assert_eq!((0, 0), token_bounds(b""));
    assert_eq!((2, 2), token_bounds(b"  "));
    assert_eq!((0, 4), token_bounds(b"a.ru"));
    assert_eq!((1, 5), token_bounds(b" a.ru b"));
    assert_eq!((0, 5), token_bounds(b"a\x0bb.r\tx"));
}

#[test]
fn listing_gives_its_domains_line_by_line() {
    let data = b"b.ru\tNS x\n a.ru extra\r\n\n\xff\xfe bad\nb.ru\nc.ru";
    assert_eq!(names(&["b.ru", "a.ru", "b.ru", "c.ru"]), extract_domains(data));
    assert_eq!(Vec::<String>::new(), extract_domains(b""));
    assert_eq!(Vec::<String>::new(), extract_domains(b"\n\n \n"));
    assert_eq!(names(&["x.su"]), extract_domains(b"x.su\n"));
}

#[test]
fn snapshot_is_sorted_and_holds_each_name_once() {
    let snapshot = ZoneSnapshot::from_listing(b"b.ru\nc.ru\na.ru\nb.ru\nZ.ru\n");
    assert_eq!(&names(&["Z.ru", "a.ru", "b.ru", "c.ru"]), snapshot.as_vec());
    assert_eq!(4, snapshot.len());
    let same = ZoneSnapshot::from_domains(names(&["c.ru", "Z.ru", "a.ru", "b.ru", "a.ru"]));
    assert_eq!(names(&["Z.ru", "a.ru", "b.ru", "c.ru"]), same.into_vec());
    assert_eq!(0, ZoneSnapshot::from_domains(Vec::new()).len());
}

#[test]
fn sorted_listing_stays_as_it_is() {
    let snapshot = ZoneSnapshot::from_listing(b"a.ru\nab.ru\nb.ru\n");
    assert_eq!(names(&["a.ru", "ab.ru", "b.ru"]), snapshot.into_vec());
}

#[test]
fn archive_is_unpacked_before_it_is_read() {
    let listing = b"yandex.ru\tRU-CENTER\nexample.ru\n";
    let snapshot = ZoneSnapshot::from_archive(&gzip(listing)).unwrap();
    assert_eq!(names(&["example.ru", "yandex.ru"]), snapshot.into_vec());
    let empty = ZoneSnapshot::from_archive(&gzip(b"")).unwrap();
    assert_eq!(0, empty.len());
}

#[test]
fn broken_archive_gives_no_snapshot() {
    assert!(ZoneSnapshot::from_archive(b"yandex.ru\nexample.ru\n").is_none());
    assert!(ZoneSnapshot::from_archive(b"").is_none());
    let mut cut = gzip(b"yandex.ru\nexample.ru\nexample.su\n");
    cut.truncate(cut.len() - 6);
    assert!(ZoneSnapshot::from_archive(&cut).is_none());
}
