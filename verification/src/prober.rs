//! Probing the web presence of the domains of a registry.
//!
//! The store and the network are the caller's. Here stand the decisions: what
//! to do after the store answered, what a response is worth, what becomes of
//! the record once both probes have ended, when the run gives up, and how
//! long to wait before the next domain.

use vstd::prelude::*;
use vstd::string::StringExecFns;
use crate::domain::{awaits_lookup, looked_up, site_of, Domain, DomainView};
use crate::parsers::{describe_text, text_site};
use crate::site::{Site, SiteView};
use crate::text::{decimal, decimal_text};

verus! {

/// The status of a response that carries a page.
pub const STATUS_OK: u16 = 200;

/// The number of failures of the store at which a run gives up.
pub const ERROR_BUDGET: usize = 10;

/// The largest number of domains that are probed in one second.
pub const RATE_LIMIT: u64 = 10;

/// The address to probe a domain at: the protocol, then the domain name.
pub fn probe_url(proto: &str, domain: &str) -> (url: String)
    ensures
        url@ == proto@ + domain@,
{
    let mut url = String::from_str(proto);
    url.append(domain);
    url
}

/// What a response is worth: a page has the status 200 and a body that
/// could be read as text and is not too long to be parsed.
pub open spec fn dispatched(url: Seq<char>, status: u16, body: Option<Seq<char>>) -> Option<
    SiteView,
> {
    match body {
        Some(text) => if status == STATUS_OK {
            text_site(url, text)
        } else {
            None
        },
        None => None,
    }
}

/// Turns a response into a site. `url` is the address that the response
/// reports, `status` its status code, and `body` its body as text, or `None`
/// where the body could not be read. Any status but 200 yields no site, and
/// so does a body of more than `MAX_PAGE_BYTES` bytes.
pub fn dispatch(url: String, status: u16, body: Option<&str>) -> (site: Option<Site>)
    ensures
        site_of(site) == dispatched(
            url@,
            status,
            match body {
                Some(text) => Some(text@),
                None => None,
            },
        ),
{
    if status != STATUS_OK {
        return None;
    }
    match body {
        Some(text) => describe_text(url, text),
        None => None,
    }
}

/// The line that reports a response without a page.
pub open spec fn status_text(url: Seq<char>, status: u16) -> Seq<char> {
    url + " -- Get response with code: "@ + decimal_text(status as nat)
}

/// The line that reports a response whose status is not 200.
pub fn status_message(url: &str, status: u16) -> (line: String)
    ensures
        line@ == status_text(url@, status),
{
    let mut line = String::from_str(url);
    line.append(" -- Get response with code: ");
    line.append(decimal(status).as_str());
    line
}

/// Why a probe got no response.
#[derive(Debug, Clone, Copy, PartialEq, Eq, Structural)]
pub struct ProbeError {
    /// The request could not be sent.
    pub request: bool,
    /// The time for the probe ran out.
    pub timeout: bool,
    /// The status of the response, where the response itself was the error.
    pub status: Option<u16>,
}

/// The lines that report a failed probe: one for each of its reasons.
pub open spec fn failure_texts(url: Seq<char>, error: ProbeError) -> Seq<Seq<char>> {
    (if error.request {
        seq![url + " -- FAILED -- Error sending request"@]
    } else {
        Seq::empty()
    }) + (if error.timeout {
        seq![url + " -- FAILED -- Time out"@]
    } else {
        Seq::empty()
    }) + (match error.status {
        Some(status) => seq![
            url + " -- FAILED -- Http "@ + decimal_text(status as nat) + " error"@,
        ],
        None => Seq::empty(),
    })
}

/// The lines that report a probe of `url` that failed with `error`.
pub fn failure_messages(url: &str, error: ProbeError) -> (lines: Vec<String>)
    ensures
        crate::codec::texts(lines@) == failure_texts(url@, error),
{
    let mut lines: Vec<String> = Vec::new();
    if error.request {
        let mut line = String::from_str(url);
        line.append(" -- FAILED -- Error sending request");
        lines.push(line);
    }
    if error.timeout {
        let mut line = String::from_str(url);
        line.append(" -- FAILED -- Time out");
        lines.push(line);
    }
    if let Some(status) = error.status {
        let mut line = String::from_str(url);
        line.append(" -- FAILED -- Http ");
        line.append(decimal(status).as_str());
        line.append(" error");
        lines.push(line);
    }
    proof {
        assert(crate::codec::texts(lines@) =~= failure_texts(url@, error));
    }
    lines
}

/// What the store answered when it was asked for a record to probe.
#[derive(Debug)]
pub enum Selection {
    /// The store failed.
    Failed,
    /// The store has no record that is due for its probe.
    Nothing,
    /// The store handed out this record.
    Record(Domain),
}

/// A run that is about to ask the store for a record.
#[derive(Debug)]
pub struct Selecting {
    errors: usize,
}

/// A run that is probing the domain of a record.
#[derive(Debug)]
pub struct Probing {
    errors: usize,
    record: Domain,
}

/// A run that is about to hand a record back to the store.
#[derive(Debug)]
pub struct Storing {
    errors: usize,
}

/// What a run does after the store answered a selection.
#[derive(Debug)]
pub enum AfterSelection {
    /// The budget of failures is spent: the run ends.
    Stop,
    /// Ask the store again.
    Select(Selecting),
    /// Probe the record's domain over both protocols.
    Probe(Probing),
}

impl Selecting {
    #[verifier::type_invariant]
    spec fn within_budget(&self) -> bool {
        self.errors < ERROR_BUDGET
    }

    /// How often the store has failed in this run.
    pub closed spec fn failures(&self) -> nat {
        self.errors as nat
    }

    /// The start of a run: the store has not failed yet.
    pub fn new() -> (run: Selecting)
        ensures
            run.failures() == 0,
    {
        Selecting { errors: 0 }
    }

    /// How often the store has failed in this run. It is less than the budget.
    pub fn errors(&self) -> (n: usize)
        ensures
            n == self.failures(),
            n < ERROR_BUDGET,
    {
        proof {
            use_type_invariant(self);
        }
        self.errors
    }

    /// Decides what follows the store's answer. A failure counts against the
    /// budget, and the run ends when the budget is spent. A record that is
    /// due for its probe is probed. A record that has been probed before, or
    /// whose domain is removed, is never probed: the store is asked again, as
    /// it is when it has nothing to hand out.
    pub fn on_selection(self, answer: Selection) -> (next: AfterSelection)
        ensures
            match answer {
                Selection::Failed => if self.failures() + 1 == ERROR_BUDGET {
                    next is Stop
                } else {
                    next matches AfterSelection::Select(run) && run.failures() == self.failures()
                        + 1
                },
                Selection::Nothing => next matches AfterSelection::Select(run) && run.failures()
                    == self.failures(),
                Selection::Record(record) => if awaits_lookup(record@) {
                    next matches AfterSelection::Probe(probing) && probing.failures()
                        == self.failures() && probing.record() == record@
                } else {
                    next matches AfterSelection::Select(run) && run.failures() == self.failures()
                },
            },
    {
        proof {
            use_type_invariant(&self);
        }
        match answer {
            Selection::Failed => {
                if self.errors + 1 == ERROR_BUDGET {
                    AfterSelection::Stop
                } else {
                    AfterSelection::Select(Selecting { errors: self.errors + 1 })
                }
            },
            Selection::Nothing => AfterSelection::Select(self),
            Selection::Record(record) => {
                if record.awaits_lookup() {
                    AfterSelection::Probe(Probing { errors: self.errors, record })
                } else {
                    AfterSelection::Select(self)
                }
            },
        }
    }
}

impl Probing {
    #[verifier::type_invariant]
    spec fn within_budget(&self) -> bool {
        self.errors < ERROR_BUDGET && awaits_lookup(self.record@)
    }

    /// How often the store has failed in this run.
    pub closed spec fn failures(&self) -> nat {
        self.errors as nat
    }

    /// The record whose domain is probed.
    pub closed spec fn record(&self) -> DomainView {
        self.record@
    }

    /// The domain to probe.
    pub fn domain(&self) -> (name: &String)
        ensures
            name@ == self.record().url,
    {
        &self.record.url
    }

    /// The address of the plaintext probe.
    pub fn http_url(&self) -> (url: String)
        ensures
            url@ == "http://"@ + self.record().url,
    {
        probe_url("http://", self.record.url.as_str())
    }

    /// The address of the encrypted probe.
    pub fn https_url(&self) -> (url: String)
        ensures
            url@ == "https://"@ + self.record().url,
    {
        probe_url("https://", self.record.url.as_str())
    }

    /// Closes the probe once both protocols have ended, each with a site or
    /// without. Returns the record to hand to the store: it holds what was
    /// found and is marked as probed, whatever was found.
    pub fn on_probed(self, http: Option<Site>, https: Option<Site>) -> (next: (Storing, Domain))
        ensures
            next.0.failures() == self.failures(),
            next.1@ == looked_up(self.record(), site_of(http), site_of(https)),
            !awaits_lookup(next.1@),
    {
        proof {
            use_type_invariant(&self);
        }
        let Probing { errors, mut record } = self;
        record.complete_lookup(http, https);
        (Storing { errors }, record)
    }
}

impl Storing {
    #[verifier::type_invariant]
    spec fn within_budget(&self) -> bool {
        self.errors < ERROR_BUDGET
    }

    /// How often the store has failed in this run.
    pub closed spec fn failures(&self) -> nat {
        self.errors as nat
    }

    /// Decides what follows the store's answer to the record: `stored` says
    /// whether the store took it. A refusal counts against the budget, and
    /// the run ends (`None`) when the budget is spent. The record is not
    /// handed to the store a second time.
    pub fn on_stored(self, stored: bool) -> (next: Option<Selecting>)
        ensures
            match next {
                Some(run) => run.failures() == self.failures() + if stored {
                    0nat
                } else {
                    1nat
                },
                None => !stored && self.failures() + 1 == ERROR_BUDGET,
            },
    {
        proof {
            use_type_invariant(&self);
        }
        if stored {
            Some(Selecting { errors: self.errors })
        } else if self.errors + 1 == ERROR_BUDGET {
            None
        } else {
            Some(Selecting { errors: self.errors + 1 })
        }
    }
}

/// The least time in milliseconds between two domains at a rate of `rate`
/// domains in a second.
pub fn min_interval_ms(rate: u64) -> (interval: u64)
    requires
        rate > 0,
    ensures
        interval == 1000int / (rate as int),
{
    1000 / rate
}

/// How long to wait, in milliseconds, before the next domain, when the
/// probes of this one took `elapsed_ms`. The wait fills the interval up, so
/// a domain takes the longer of the two, the probes or the interval.
pub fn pacing_delay(interval_ms: u64, elapsed_ms: u64) -> (delay: u64)
    ensures
        delay == if elapsed_ms < interval_ms {
            interval_ms - elapsed_ms
        } else {
            0
        },
        elapsed_ms + delay == if elapsed_ms < interval_ms {
            interval_ms
        } else {
            elapsed_ms
        },
{
    if elapsed_ms < interval_ms {
        interval_ms - elapsed_ms
    } else {
        0
    }
}

} // verus!
