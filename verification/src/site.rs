//! What one web probe of a domain found.

use vstd::prelude::*;

verus! {

/// The outcome of one successful probe: the address that answered and the
/// metadata of the page it served. An absent field means that the page had no
/// such tag, not that the tag was empty.
#[derive(Debug)]
pub struct Site {
    /// The address that the response reported.
    pub url: String,
    /// The text of the page's title.
    pub title: Option<String>,
    /// The character set that the page declares.
    pub charset: Option<String>,
    /// The page's description.
    pub description: Option<String>,
    /// The page's keywords.
    pub keywords: Option<String>,
}

/// A `Site` as plain text values.
pub struct SiteView {
    pub url: Seq<char>,
    pub title: Option<Seq<char>>,
    pub charset: Option<Seq<char>>,
    pub description: Option<Seq<char>>,
    pub keywords: Option<Seq<char>>,
}

/// The text of an optional string.
pub open spec fn text_of(value: Option<String>) -> Option<Seq<char>> {
    match value {
        Some(s) => Some(s@),
        None => None,
    }
}

impl View for Site {
    type V = SiteView;

    open spec fn view(&self) -> SiteView {
        SiteView {
            url: self.url@,
            title: text_of(self.title),
            charset: text_of(self.charset),
            description: text_of(self.description),
            keywords: text_of(self.keywords),
        }
    }
}

/// A copy of an optional string.
pub fn copy_text(value: &Option<String>) -> (r: Option<String>)
    ensures
        text_of(r) == text_of(*value),
{
    match value {
        Some(s) => Some(s.clone()),
        None => None,
    }
}

impl Site {
    /// A site with an empty address and no metadata.
    pub fn new() -> (site: Site)
        ensures
            site@ == (SiteView {
                url: Seq::<char>::empty(),
                title: None,
                charset: None,
                description: None,
                keywords: None,
            }),
    {
        Site { url: String::new(), title: None, charset: None, description: None, keywords: None }
    }

    /// A copy of this site.
    pub fn duplicate(&self) -> (site: Site)
        ensures
            site@ == self@,
    {
        Site {
            url: self.url.clone(),
            title: copy_text(&self.title),
            charset: copy_text(&self.charset),
            description: copy_text(&self.description),
            keywords: copy_text(&self.keywords),
        }
    }
}

impl Default for Site {
    fn default() -> (site: Site)
        ensures
            site@ == (SiteView {
                url: Seq::<char>::empty(),
                title: None,
                charset: None,
                description: None,
                keywords: None,
            }),
    {
        Site::new()
    }
}

impl Clone for Site {
    fn clone(&self) -> (site: Site)
        ensures
            site@ == self@,
    {
        self.duplicate()
    }
}

} // verus!
