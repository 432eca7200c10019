//! The record that the registry keeps of one domain name.

use vstd::prelude::*;
use vstd::string::StringExecFns;
use crate::order::{bytes_precede, text_rank, SortKey};
use crate::site::{Site, SiteView};

verus! {

/// One entry of a zone's registry. The domain name is its key.
#[derive(Debug)]
pub struct Domain {
    /// The bare domain name.
    pub url: String,
    /// What the plaintext probe found.
    pub http: Option<Site>,
    /// What the encrypted probe found.
    pub https: Option<Site>,
    /// Whether the domain has been probed, with or without success.
    pub lookup: bool,
    /// Whether at least one of the two probes yielded a page.
    pub success: bool,
    /// Whether the domain is missing from the latest publication of its zone.
    pub removed: bool,
}

/// A `Domain` as plain values.
pub struct DomainView {
    pub url: Seq<char>,
    pub http: Option<SiteView>,
    pub https: Option<SiteView>,
    pub lookup: bool,
    pub success: bool,
    pub removed: bool,
}

/// An optional site as plain values.
pub open spec fn site_of(site: Option<Site>) -> Option<SiteView> {
    match site {
        Some(s) => Some(s@),
        None => None,
    }
}

impl View for Domain {
    type V = DomainView;

    open spec fn view(&self) -> DomainView {
        DomainView {
            url: self.url@,
            http: site_of(self.http),
            https: site_of(self.https),
            lookup: self.lookup,
            success: self.success,
            removed: self.removed,
        }
    }
}

/// The record of a domain that has just appeared in its zone: nothing is
/// known of it and every flag is down.
pub open spec fn fresh_record(url: Seq<char>) -> DomainView {
    DomainView { url, http: None, https: None, lookup: false, success: false, removed: false }
}

/// Whether a record is due for its probe: it has not been probed, and its
/// domain is still published.
pub open spec fn awaits_lookup(record: DomainView) -> bool {
    !record.lookup && !record.removed
}

/// The record after its probe: each protocol that yielded a page has its site
/// recorded and marks the probe a success, and the probe is marked as made.
pub open spec fn looked_up(
    record: DomainView,
    http: Option<SiteView>,
    https: Option<SiteView>,
) -> DomainView {
    DomainView {
        url: record.url,
        http: if http is Some { http } else { record.http },
        https: if https is Some { https } else { record.https },
        lookup: true,
        success: record.success || http is Some || https is Some,
        removed: record.removed,
    }
}

/// One line of a report: the label, the value if there is one, and a line break.
pub open spec fn field_text(label: Seq<char>, value: Option<Seq<char>>) -> Seq<char> {
    match value {
        Some(v) => label + v + seq!['\n'],
        None => label + seq!['\n'],
    }
}

/// The five lines that report a site.
pub open spec fn site_text(site: SiteView) -> Seq<char> {
    field_text("    url: "@, Some(site.url)) + field_text("    title: "@, site.title) + field_text(
        "    charset: "@,
        site.charset,
    ) + field_text("    description: "@, site.description) + field_text(
        "    keywords: "@,
        site.keywords,
    )
}

/// The lines that report one protocol: its name, then its site if it has one.
pub open spec fn protocol_text(name: Seq<char>, site: Option<SiteView>) -> Seq<char> {
    match site {
        Some(s) => name + seq!['\n'] + site_text(s),
        None => name + seq!['\n'],
    }
}

/// A flag as text.
pub open spec fn flag_text(flag: bool) -> Seq<char> {
    if flag {
        "true"@
    } else {
        "false"@
    }
}

/// The report of a record: the domain name, what each protocol found, and
/// the two flags of the probe.
pub open spec fn domain_text(record: DomainView) -> Seq<char> {
    (if record.url.len() == 0 {
        field_text("url:"@, None)
    } else {
        field_text("url: "@, Some(record.url))
    }) + protocol_text("http:"@, record.http) + protocol_text("https:"@, record.https)
        + field_text("lookup: "@, Some(flag_text(record.lookup))) + field_text(
        "success: "@,
        Some(flag_text(record.success)),
    )
}

/// Appends one line of a report.
fn push_field(out: &mut String, label: &str, value: Option<&str>)
    ensures
        final(out)@ == old(out)@ + field_text(
            label@,
            match value {
                Some(v) => Some(v@),
                None => None,
            },
        ),
{
    let ghost before = out@;
    out.append(label);
    match value {
        Some(v) => {
            out.append(v);
            out.append("\n");
            proof {
                reveal_strlit("\n");
                assert("\n"@ =~= seq!['\n']);
                assert(out@ =~= before + (label@ + v@ + seq!['\n']));
            }
        },
        None => {
            out.append("\n");
            proof {
                reveal_strlit("\n");
                assert("\n"@ =~= seq!['\n']);
                assert(out@ =~= before + (label@ + seq!['\n']));
            }
        },
    }
}

/// An optional string as an optional string slice.
fn as_text(value: &Option<String>) -> (r: Option<&str>)
    ensures
        match r {
            Some(v) => Some(v@),
            None => None,
        } == crate::site::text_of(*value),
{
    match value {
        Some(s) => Some(s.as_str()),
        None => None,
    }
}

/// Appends the five lines that report a site.
fn push_site(out: &mut String, site: &Site)
    ensures
        final(out)@ == old(out)@ + site_text(site@),
{
    let ghost before = out@;
    push_field(out, "    url: ", Some(site.url.as_str()));
    push_field(out, "    title: ", as_text(&site.title));
    push_field(out, "    charset: ", as_text(&site.charset));
    push_field(out, "    description: ", as_text(&site.description));
    push_field(out, "    keywords: ", as_text(&site.keywords));
    proof {
        assert(out@ =~= before + site_text(site@));
    }
}

/// Appends the lines that report one protocol.
fn push_protocol(out: &mut String, name: &str, site: &Option<Site>)
    ensures
        final(out)@ == old(out)@ + protocol_text(name@, site_of(*site)),
{
    let ghost before = out@;
    push_field(out, name, None);
    match site {
        Some(s) => {
            push_site(out, s);
            proof {
                assert(out@ =~= before + (name@ + seq!['\n'] + site_text(s@)));
            }
        },
        None => {},
    }
}

impl Domain {
    /// The record of a domain that has just appeared in its zone.
    pub fn new(url: String) -> (record: Domain)
        ensures
            record@ == fresh_record(url@),
    {
        Domain { url, http: None, https: None, lookup: false, success: false, removed: false }
    }

    /// Records what the plaintext probe found, and that the probe succeeded.
    pub fn set_http_site(&mut self, site: Site)
        ensures
            final(self)@ == (DomainView { http: Some(site@), success: true, ..old(self)@ }),
    {
        self.http = Some(site);
        self.success = true;
    }

    /// Records what the encrypted probe found, and that the probe succeeded.
    pub fn set_https_site(&mut self, site: Site)
        ensures
            final(self)@ == (DomainView { https: Some(site@), success: true, ..old(self)@ }),
    {
        self.https = Some(site);
        self.success = true;
    }

    /// Whether the record is due for its probe.
    pub fn awaits_lookup(&self) -> (due: bool)
        ensures
            due == awaits_lookup(self@),
    {
        !self.lookup && !self.removed
    }

    /// Closes the probe of this record with what the two protocols yielded.
    /// A protocol that failed leaves its field as it was. The record is marked
    /// as probed whatever the outcome, so it is never due for a probe again.
    pub fn complete_lookup(&mut self, http: Option<Site>, https: Option<Site>)
        ensures
            final(self)@ == looked_up(old(self)@, site_of(http), site_of(https)),
            !awaits_lookup(final(self)@),
    {
        if let Some(site) = http {
            self.set_http_site(site);
        }
        if let Some(site) = https {
            self.set_https_site(site);
        }
        self.lookup = true;
    }

    /// A copy of this record.
    pub fn duplicate(&self) -> (record: Domain)
        ensures
            record@ == self@,
    {
        Domain {
            url: self.url.clone(),
            http: match &self.http {
                Some(s) => Some(s.duplicate()),
                None => None,
            },
            https: match &self.https {
                Some(s) => Some(s.duplicate()),
                None => None,
            },
            lookup: self.lookup,
            success: self.success,
            removed: self.removed,
        }
    }

    /// The report of this record, as it is logged after a successful probe.
    pub fn to_text(&self) -> (text: String)
        ensures
            text@ == domain_text(self@),
    {
        let mut out = String::new();
        if self.url.as_str().is_empty() {
            push_field(&mut out, "url:", None);
        } else {
            push_field(&mut out, "url: ", Some(self.url.as_str()));
        }
        push_protocol(&mut out, "http:", &self.http);
        push_protocol(&mut out, "https:", &self.https);
        push_field(&mut out, "lookup: ", Some(if self.lookup { "true" } else { "false" }));
        push_field(&mut out, "success: ", Some(if self.success { "true" } else { "false" }));
        proof {
            assert(out@ =~= domain_text(self@));
        }
        out
    }
}

impl Default for Domain {
    fn default() -> (record: Domain)
        ensures
            record@ == fresh_record(Seq::<char>::empty()),
    {
        Domain::new(String::new())
    }
}

impl Clone for Domain {
    fn clone(&self) -> (record: Domain)
        ensures
            record@ == self@,
    {
        self.duplicate()
    }
}

/// Records are ordered by their domain names, as strings are.
impl SortKey for Domain {
    open spec fn rank(&self) -> Seq<int> {
        text_rank(self.url@)
    }

    fn precedes(&self, other: &Self) -> (b: bool) {
        bytes_precede(self.url.as_str().as_bytes(), other.url.as_str().as_bytes())
    }
}

} // verus!
