use scraper::Html;
use zones::parsers::{collect_metadata, first_title, Element};
use zones::{parse_metadata, parse_title};

#[test]
fn title_exists() {
    let html = r#"
        <html>
            <head>
                <title>Title</title>
            </head>
            <body/>
        </html>
        "#;
    let doc = Html::parse_document(html);

    let title = parse_title(&doc);

    assert_eq!(Some(String::from("Title")), title);
}

#[test]
fn title_not_exists() {
    let html = r#"
        <html>
            <head/>
            <body/>
        </html>
        "#;
    let doc = Html::parse_document(html);

    let title = parse_title(&doc);

    assert_eq!(None, title);
}

// The title is written out with its end tag. The parser reads a `<title/>` in
// the head as an opening tag, so that the title takes what follows it as its
// text (see `self_closed_title_in_the_head_takes_the_rest`); an element
// without text needs the end tag.
#[test]
fn empty_title() {
    let html = r#"
        <html>
            <head/>
                <title></title>
            <body/>
        </html>
        "#;
    let doc = Html::parse_document(html);

    let title = parse_title(&doc);

    assert_eq!(None, title);
}

#[test]
fn self_closed_title_in_the_head_takes_the_rest() {
    let html = r#"
        <html>
            <head/>
                <title/>
            <body/>
        </html>
        "#;
    let doc = Html::parse_document(html);

    let title = parse_title(&doc);

    assert_eq!(Some(String::from("\n            <body/>\n        </html>\n        ")), title);
}

#[test]
fn meta_not_exists() {
    let html = r#"
        <html>
            <head/>
            <body/>
        </html>
        "#;
    let doc = Html::parse_document(html);

    let metadata = parse_metadata(&doc);

    assert_eq!(None, metadata.charset);
    assert_eq!(None, metadata.description);
    assert_eq!(None, metadata.keywords);
}

#[test]
fn meta_exists() {
    let html = r#"
        <html>
            <head>
                <meta charset="utf-8">
                <meta name="description" content="description">
                <meta name="keywords" content="keywords">
                <meta name="description" content="description">
                <meta http-equiv="Content-Type" content="text/html; charset=utf-8">
            </head>
            <body/>
        </html>
        "#;
    let doc = Html::parse_document(html);

    let metadata = parse_metadata(&doc);

    assert_eq!(Some(String::from("utf-8")), metadata.charset);
    assert_eq!(Some(String::from("description")), metadata.description);
    assert_eq!(Some(String::from("keywords")), metadata.keywords);
}

#[test]
fn first_title_skips_empty_texts() {
    let texts = vec![text(""), text("Second"), text("Third")];
    assert_eq!(Some(String::from("Second")), first_title(texts));
    assert_eq!(None, first_title(vec![text(""), text("")]));
    assert_eq!(None, first_title(Vec::new()));
}

#[test]
fn second_title_is_taken_when_the_first_is_empty() {
    let html = "<html><head><title></title></head><body><svg><title>Drawing</title></svg></body></html>";
    let doc = Html::parse_document(html);
    assert_eq!(Some(String::from("Drawing")), parse_title(&doc));
}

fn text(text: &str) -> Element {
    Element { text: String::from(text), charset: None, name: None, content: None }
}

fn tag(charset: Option<&str>, name: Option<&str>, content: Option<&str>) -> Element {
    Element {
        text: String::new(),
        charset: charset.map(String::from),
        name: name.map(String::from),
        content: content.map(String::from),
    }
}

#[test]
fn last_tag_wins() {
    let site = collect_metadata(vec![
        tag(Some("utf-8"), None, None),
        tag(None, Some("description"), Some("first")),
        tag(Some("koi8-r"), Some("Description"), Some("second")),
        tag(None, Some("KEYWORDS"), Some("a, b")),
    ]);
    assert_eq!(Some(String::from("koi8-r")), site.charset);
    assert_eq!(Some(String::from("second")), site.description);
    assert_eq!(Some(String::from("a, b")), site.keywords);
    assert_eq!(None, site.title);
    assert_eq!("", site.url);
}

#[test]
fn unknown_name_sets_nothing() {
    let site = collect_metadata(vec![tag(None, Some("x"), Some("y"))]);
    assert_eq!(None, site.charset);
    assert_eq!(None, site.description);
    assert_eq!(None, site.keywords);
}

#[test]
fn name_without_content_is_skipped() {
    let site = collect_metadata(vec![
        tag(None, Some("description"), None),
        tag(None, Some("keywords"), None),
    ]);
    assert_eq!(None, site.description);
    assert_eq!(None, site.keywords);
}

#[test]
fn meta_tags_are_read_from_the_document() {
    let html = r#"<html><head>
        <meta name="x" content="y">
        <meta name="description">
        <meta NAME="Keywords" CONTENT="dns, zones">
        <meta charset="windows-1251">
        </head><body></body></html>"#;
    let doc = Html::parse_document(html);
    let site = parse_metadata(&doc);
    assert_eq!(Some(String::from("windows-1251")), site.charset);
    assert_eq!(None, site.description);
    assert_eq!(Some(String::from("dns, zones")), site.keywords);
}

#[test]
fn self_closed_title_in_a_drawing_has_no_text() {
    let html = "<html><head></head><body><svg><title/></svg><p>text</p></body></html>";
    let doc = Html::parse_document(html);
    assert_eq!(None, parse_title(&doc));
}
