//! Reading the title and the metadata out of a parsed page.

use vstd::prelude::*;
use vstd::utf8::encode_utf8;
use scraper::Html;
use scraper::Selector;
use crate::domain::site_of;
use crate::site::{text_of, Site, SiteView};
use crate::text::{eq_ignoring_case, same_ignoring_case};

verus! {

/// A parsed HTML document of the `scraper` crate. Nothing of its inside is
/// known here: `elements` names what is read from it.
#[verifier::external_type_specification]
#[verifier::external_body]
pub struct ExHtml(Html);

/// What is read of an element of a document: its text, and three of its attributes.
#[derive(Debug)]
pub struct Element {
    /// The text under the element: its text nodes, joined.
    pub text: String,
    /// The value of the attribute `charset`.
    pub charset: Option<String>,
    /// The value of the attribute `name`.
    pub name: Option<String>,
    /// The value of the attribute `content`.
    pub content: Option<String>,
}

/// An `Element` as plain text values.
pub struct ElementView {
    pub text: Seq<char>,
    pub charset: Option<Seq<char>>,
    pub name: Option<Seq<char>>,
    pub content: Option<Seq<char>>,
}

impl View for Element {
    type V = ElementView;

    open spec fn view(&self) -> ElementView {
        ElementView {
            text: self.text@,
            charset: text_of(self.charset),
            name: text_of(self.name),
            content: text_of(self.content),
        }
    }
}

/// Some elements as plain text values.
pub open spec fn views(found: Seq<Element>) -> Seq<ElementView> {
    found.map_values(|e: Element| e@)
}

/// The elements of a document that a CSS selector matches, in the order in
/// which the document hands them out; none where the selector is not one.
pub uninterp spec fn elements(doc: Html, selector: Seq<char>) -> Seq<ElementView>;

/// The document that `scraper` parses a text to.
pub uninterp spec fn parsed(text: Seq<char>) -> Html;

/// The largest text, in bytes, that is handed to the parser: 256 MiB.
///
/// `scraper` keeps the text of a document in buffers of the `tendril` crate.
/// Such a buffer takes no more than `u32::MAX` bytes at once, and it panics
/// when it has to grow past 2^31 bytes, or on a machine with addresses of 32
/// bits past 2^30. The parser writes at most three bytes for a byte that it
/// reads (a NUL becomes U+FFFD), so with a text of this size no buffer comes
/// near these limits.
pub const MAX_PAGE_BYTES: usize = 0x1000_0000;

/// Calls `Html::parse_document` of `scraper`. Trusted: on a text of at most
/// `MAX_PAGE_BYTES` bytes the call returns, and the result is what `parsed`
/// names. The parser reports no error: it makes a document of every text.
#[verifier::external_body]
fn parse_document(text: &str) -> (doc: Html)
    requires
        encode_utf8(text@).len() <= MAX_PAGE_BYTES,
    ensures
        doc == parsed(text@),
{
    Html::parse_document(text)
}

/// Calls `Selector::parse` and `Html::select` of `scraper`, and reads of each
/// element found its text (`ElementRef::text`) and three attributes
/// (`Element::attr`). Trusted: the result is what `elements` names, one entry
/// for each element, in the order of the selection; an attribute that the
/// element lacks is `None`; a selector that does not parse selects nothing.
#[verifier::external_body]
fn select_elements(doc: &Html, selector: &str) -> (found: Vec<Element>)
    ensures
        views(found@) == elements(*doc, selector@),
{
    match Selector::parse(selector) {
        Ok(css) => doc.select(&css).map(|x| Element {
            text: x.text().collect::<String>(),
            charset: x.value().attr("charset").map(String::from),
            name: x.value().attr("name").map(String::from),
            content: x.value().attr("content").map(String::from),
        }).collect(),
        Err(_) => Vec::new(),
    }
}

/// The text of the first element whose text is not empty, if there is one.
pub open spec fn first_filled(found: Seq<ElementView>) -> Option<Seq<char>>
    decreases found.len(),
{
    if found.len() == 0 {
        None
    } else if found[0].text.len() > 0 {
        Some(found[0].text)
    } else {
        first_filled(found.drop_first())
    }
}

/// Whether a tag gives a value to the metadata field called `field`: it has
/// that name, whatever the case of its letters, and it has a content.
pub open spec fn tag_gives(tag: ElementView, field: Seq<char>) -> bool {
    tag.name matches Some(name) && tag.content is Some && same_ignoring_case(name, field)
}

/// The metadata after one more tag: the tag's character set, description or
/// keywords replace what earlier tags gave.
pub open spec fn with_tag(site: SiteView, tag: ElementView) -> SiteView {
    SiteView {
        charset: if tag.charset is Some {
            tag.charset
        } else {
            site.charset
        },
        description: if tag_gives(tag, "description"@) {
            tag.content
        } else {
            site.description
        },
        keywords: if tag_gives(tag, "keywords"@) {
            tag.content
        } else {
            site.keywords
        },
        ..site
    }
}

/// A site of which nothing is known.
pub open spec fn blank_site() -> SiteView {
    SiteView {
        url: Seq::<char>::empty(),
        title: None,
        charset: None,
        description: None,
        keywords: None,
    }
}

/// The metadata that a sequence of tags gives: for each field, the value of
/// the last tag that gives one.
pub open spec fn metadata_of(tags: Seq<ElementView>) -> SiteView
    decreases tags.len(),
{
    if tags.len() == 0 {
        blank_site()
    } else {
        with_tag(metadata_of(tags.drop_last()), tags.last())
    }
}

/// The text of the first of the given elements whose text is not empty.
pub fn first_title(found: Vec<Element>) -> (title: Option<String>)
    ensures
        text_of(title) == first_filled(views(found@)),
{
    broadcast use vstd::std_specs::vec::axiom_spec_into_iter;
    let ghost all = views(found@);
    proof {
        assert(all.skip(0) =~= all);
    }
    for element in it: found
        invariant
            it.seq() == found@,
            all == views(found@),
            first_filled(all) == first_filled(all.skip(it.index())),
    {
        proof {
            assert(all.skip(it.index())[0] == element@);
            assert(all.skip(it.index()).drop_first() =~= all.skip(it.index() + 1));
        }
        if !element.text.as_str().is_empty() {
            return Some(element.text);
        }
    }
    None
}

/// The metadata that the given `<meta>` tags give.
pub fn collect_metadata(tags: Vec<Element>) -> (site: Site)
    ensures
        site@ == metadata_of(views(tags@)),
{
    broadcast use vstd::std_specs::vec::axiom_spec_into_iter;
    let ghost all = views(tags@);
    let mut site = Site::new();
    for tag in it: tags
        invariant
            it.seq() == tags@,
            all == views(tags@),
            site@ == metadata_of(all.take(it.index())),
    {
        proof {
            assert(all.take(it.index() + 1).drop_last() =~= all.take(it.index()));
            assert(all.take(it.index() + 1).last() == tag@);
            reveal_strlit("description");
            reveal_strlit("keywords");
        }
        let charset = tag.charset;
        let name = tag.name;
        let content = tag.content;
        if charset.is_some() {
            site.charset = charset;
        }
        if let Some(name) = name {
            if let Some(content) = content {
                let describes = eq_ignoring_case(name.as_str(), "description");
                let lists = eq_ignoring_case(name.as_str(), "keywords");
                if describes {
                    site.description = Some(content);
                } else if lists {
                    site.keywords = Some(content);
                }
            }
        }
    }
    proof {
        assert(all.take(all.len() as int) =~= all);
    }
    site
}

/// The title of a document: the text of its first `<title>` element whose
/// text is not empty.
pub fn parse_title(doc: &Html) -> (title: Option<String>)
    ensures
        text_of(title) == first_filled(elements(*doc, "title"@)),
{
    first_title(select_elements(doc, "title"))
}

/// The metadata of a document: the character set, the description and the
/// keywords that its `<meta>` tags give. The address and the title are left
/// empty.
pub fn parse_metadata(doc: &Html) -> (site: Site)
    ensures
        site@ == metadata_of(elements(*doc, "meta"@)),
{
    collect_metadata(select_elements(doc, "meta"))
}

/// What a page at an address says of itself: the address, the title and
/// the metadata of the document.
pub open spec fn page_site(url: Seq<char>, doc: Html) -> SiteView {
    SiteView {
        url,
        title: first_filled(elements(doc, "title"@)),
        ..metadata_of(elements(doc, "meta"@))
    }
}

/// The site that a parsed page at an address describes.
pub fn describe_page(url: String, doc: &Html) -> (site: Site)
    ensures
        site@ == page_site(url@, *doc),
{
    let mut site = parse_metadata(doc);
    site.url = url;
    site.title = parse_title(doc);
    site
}

/// What the text of a page at an address says of the page: what the parsed
/// text says, or nothing where the text is too long to be parsed.
pub open spec fn text_site(url: Seq<char>, text: Seq<char>) -> Option<SiteView> {
    if encode_utf8(text).len() <= MAX_PAGE_BYTES {
        Some(page_site(url, parsed(text)))
    } else {
        None
    }
}

/// The site that the text of a page at an address describes, or `None`
/// where the text is longer than `MAX_PAGE_BYTES` bytes.
pub fn describe_text(url: String, text: &str) -> (site: Option<Site>)
    ensures
        site_of(site) == text_site(url@, text@),
{
    if text.as_bytes().len() > MAX_PAGE_BYTES {
        return None;
    }
    let doc = parse_document(text);
    Some(describe_page(url, &doc))
}

} // verus!
