//! Resolving the domains of a zone to their addresses, a batch at a time.
//!
//! The name servers are asked by the caller. Here stand the settings that the
//! caller configures its resolver with, and the bookkeeping of one pass: which
//! domain is next, and where each domain goes once its answer is in.

use vstd::prelude::*;
use vstd::string::StringExecFns;
use crate::codec::texts;

verus! {

/// The port that name servers are asked on.
pub const DNS_PORT: u16 = 53;

/// The largest number of domains that one pass takes from the backlog.
pub const BATCH_LIMIT: usize = 1000;

/// How a resolver is to ask a pool of name servers.
#[derive(Debug)]
pub struct ResolverSettings {
    /// The IPv4 addresses of the name servers.
    pub servers: Vec<[u8; 4]>,
    /// The port that each server is asked on.
    pub port: u16,
    /// How often a domain is asked for before it counts as unresolved.
    pub attempts: usize,
    /// Whether each attempt goes to the next server of the pool.
    pub rotate: bool,
    /// Whether only IPv4 addresses are asked for.
    pub ipv4_only: bool,
}

/// The root name servers that the pool is made of, in their order.
pub open spec fn root_pool() -> Seq<Seq<u8>> {
    seq![
        seq![192u8, 203u8, 230u8, 10u8],
        seq![192u8, 5u8, 5u8, 241u8],
        seq![192u8, 58u8, 128u8, 30u8],
        seq![192u8, 36u8, 148u8, 17u8],
        seq![193u8, 0u8, 14u8, 129u8],
        seq![199u8, 7u8, 83u8, 42u8],
    ]
}

/// The addresses of some servers as sequences of bytes.
pub open spec fn addresses(servers: Seq<[u8; 4]>) -> Seq<Seq<u8>> {
    servers.map_values(|a: [u8; 4]| a@)
}

/// The IPv4 addresses of the root name servers E, F, J, I, K and L.
pub fn root_servers() -> (servers: Vec<[u8; 4]>)
    ensures
        addresses(servers@) == root_pool(),
{
    let mut servers: Vec<[u8; 4]> = Vec::new();
    servers.push([192, 203, 230, 10]);
    servers.push([192, 5, 5, 241]);
    servers.push([192, 58, 128, 30]);
    servers.push([192, 36, 148, 17]);
    servers.push([193, 0, 14, 129]);
    servers.push([199, 7, 83, 42]);
    proof {
        assert(servers@.len() == 6);
        assert forall|i: int| 0 <= i < 6 implies addresses(servers@)[i] =~= root_pool()[i] by {}
        assert(addresses(servers@) =~= root_pool());
    }
    servers
}

impl ResolverSettings {
    /// Settings for a pool of servers: the servers are asked on port 53, in
    /// turn, for IPv4 addresses, and a domain is asked for at most `attempts`
    /// times and at most once for each server of the pool.
    pub fn new(servers: Vec<[u8; 4]>, attempts: usize) -> (settings: ResolverSettings)
        ensures
            settings.servers@ == servers@,
            settings.port == DNS_PORT,
            settings.attempts == if attempts <= servers@.len() {
                attempts as int
            } else {
                servers@.len() as int
            },
            settings.rotate,
            settings.ipv4_only,
    {
        let attempts = if attempts <= servers.len() {
            attempts
        } else {
            servers.len()
        };
        ResolverSettings { servers, port: DNS_PORT, attempts, rotate: true, ipv4_only: true }
    }

    /// Settings for the pool of root name servers, each asked once for a domain.
    pub fn root_pool() -> (settings: ResolverSettings)
        ensures
            addresses(settings.servers@) == root_pool(),
            settings.port == DNS_PORT,
            settings.attempts == 6,
            settings.rotate,
            settings.ipv4_only,
    {
        let servers = root_servers();
        proof {
            assert(addresses(servers@).len() == servers@.len());
        }
        let count = servers.len();
        ResolverSettings::new(servers, count)
    }
}

/// What asking the pool for one domain came to.
#[derive(Debug)]
pub enum Lookup {
    /// The domain resolved to these addresses, each written as text.
    Resolved(Vec<String>),
    /// Every attempt ended without an address.
    NotFound,
    /// No server of the pool could be reached.
    PoolUnavailable,
}

/// A `Lookup` as plain text values.
pub enum LookupView {
    Resolved(Seq<Seq<char>>),
    NotFound,
    PoolUnavailable,
}

impl View for Lookup {
    type V = LookupView;

    open spec fn view(&self) -> LookupView {
        match self {
            Lookup::Resolved(found) => LookupView::Resolved(texts(found@)),
            Lookup::NotFound => LookupView::NotFound,
            Lookup::PoolUnavailable => LookupView::PoolUnavailable,
        }
    }
}

/// The addresses, each with a blank before it.
pub open spec fn spaced(found: Seq<Seq<char>>) -> Seq<char>
    decreases found.len(),
{
    if found.len() == 0 {
        Seq::empty()
    } else {
        spaced(found.drop_last()) + seq![' '] + found.last()
    }
}

/// The line that reports a resolved domain: its name, then its addresses,
/// with a blank before each.
pub open spec fn resolved_text(domain: Seq<char>, found: Seq<Seq<char>>) -> Seq<char> {
    domain + spaced(found)
}

/// The line that reports a resolved domain.
pub fn resolved_line(domain: &str, found: &Vec<String>) -> (line: String)
    ensures
        line@ == resolved_text(domain@, texts(found@)),
{
    let mut line = String::from_str(domain);
    let mut i: usize = 0;
    proof {
        assert(texts(found@).take(0) =~= Seq::<Seq<char>>::empty());
        assert(line@ =~= domain@ + spaced(texts(found@).take(0)));
    }
    while i < found.len()
        invariant
            i <= found.len(),
            line@ == domain@ + spaced(texts(found@).take(i as int)),
        decreases found.len() - i,
    {
        proof {
            reveal_strlit(" ");
            assert(" "@ =~= seq![' ']);
            let all = texts(found@);
            assert(all.take(i + 1).drop_last() =~= all.take(i as int));
            assert(all.take(i + 1).last() == found@[i as int]@);
            assert(domain@ + spaced(all.take(i as int)) + seq![' '] + found@[i as int]@ =~= domain@
                + (spaced(all.take(i as int)) + seq![' '] + found@[i as int]@));
        }
        line.append(" ");
        line.append(found[i].as_str());
        i = i + 1;
    }
    proof {
        assert(texts(found@).take(found@.len() as int) =~= texts(found@));
    }
    line
}

/// The state of one pass over a batch of domains.
pub struct PassView {
    /// The domains of the batch, in the order in which they are asked for.
    pub batch: Seq<Seq<char>>,
    /// How many domains of the batch have been dealt with.
    pub done: nat,
    /// The lines that report the resolved domains.
    pub resolved: Seq<Seq<char>>,
    /// The domains that stay unresolved.
    pub unresolved: Seq<Seq<char>>,
    /// Whether the pass was given up because the pool could not be reached.
    pub aborted: bool,
}

/// The state of a pass after the answer for its next domain. A domain with
/// addresses is reported as resolved. A domain without goes to the unresolved
/// ones, to be asked for again in a later pass. Where the pool cannot be
/// reached, that domain and all that follow it stay unresolved and the pass
/// is over. An answer that comes when no domain waits changes nothing.
pub open spec fn after_answer(pass: PassView, answer: LookupView) -> PassView {
    if pass.done >= pass.batch.len() {
        pass
    } else {
        let domain = pass.batch[pass.done as int];
        match answer {
            LookupView::Resolved(found) => if found.len() > 0 {
                PassView {
                    done: pass.done + 1,
                    resolved: pass.resolved.push(resolved_text(domain, found)),
                    ..pass
                }
            } else {
                PassView { done: pass.done + 1, unresolved: pass.unresolved.push(domain), ..pass }
            },
            LookupView::NotFound => PassView {
                done: pass.done + 1,
                unresolved: pass.unresolved.push(domain),
                ..pass
            },
            LookupView::PoolUnavailable => PassView {
                done: pass.batch.len(),
                unresolved: pass.unresolved + pass.batch.skip(pass.done as int),
                aborted: true,
                ..pass
            },
        }
    }
}

/// One pass of the resolver over a batch of domains.
pub struct ResolutionPass {
    batch: Vec<String>,
    done: usize,
    resolved: Vec<String>,
    unresolved: Vec<String>,
    aborted: bool,
}

impl View for ResolutionPass {
    type V = PassView;

    closed spec fn view(&self) -> PassView {
        PassView {
            batch: texts(self.batch@),
            done: self.done as nat,
            resolved: texts(self.resolved@),
            unresolved: texts(self.unresolved@),
            aborted: self.aborted,
        }
    }
}

/// The first domains of a backlog, as many as one pass takes.
pub open spec fn first_batch(backlog: Seq<Seq<char>>) -> Seq<Seq<char>> {
    if backlog.len() <= BATCH_LIMIT {
        backlog
    } else {
        backlog.take(BATCH_LIMIT as int)
    }
}

impl ResolutionPass {
    #[verifier::type_invariant]
    spec fn counted(&self) -> bool {
        &&& self.done <= self.batch@.len()
        &&& self.resolved@.len() + self.unresolved@.len() == self.done
    }

    /// A pass over the first domains of the backlog, at most `BATCH_LIMIT` of them.
    pub fn start(backlog: &Vec<String>) -> (pass: ResolutionPass)
        ensures
            pass@ == (PassView {
                batch: first_batch(texts(backlog@)),
                done: 0,
                resolved: Seq::<Seq<char>>::empty(),
                unresolved: Seq::<Seq<char>>::empty(),
                aborted: false,
            }),
    {
        let mut batch: Vec<String> = Vec::new();
        let mut i: usize = 0;
        while i < backlog.len() && i < BATCH_LIMIT
            invariant
                i <= backlog.len(),
                i <= BATCH_LIMIT,
                batch@.len() == i,
                forall|k: int| 0 <= k < i ==> #[trigger] batch@[k]@ == backlog@[k]@,
            decreases backlog.len() - i,
        {
            batch.push(backlog[i].clone());
            i = i + 1;
        }
        let pass = ResolutionPass {
            batch,
            done: 0,
            resolved: Vec::new(),
            unresolved: Vec::new(),
            aborted: false,
        };
        proof {
            assert(texts(pass.batch@) =~= first_batch(texts(backlog@)));
            assert(texts(pass.resolved@) =~= Seq::<Seq<char>>::empty());
            assert(texts(pass.unresolved@) =~= Seq::<Seq<char>>::empty());
        }
        pass
    }

    /// The domain to ask the pool for next, or `None` where the pass is over.
    pub fn next_domain(&self) -> (domain: Option<String>)
        ensures
            match domain {
                Some(d) => self@.done < self@.batch.len() && d@ == self@.batch[self@.done as int],
                None => self@.done >= self@.batch.len(),
            },
    {
        proof {
            use_type_invariant(self);
        }
        if self.done < self.batch.len() {
            Some(self.batch[self.done].clone())
        } else {
            None
        }
    }

    /// Takes the answer for the next domain and moves on.
    pub fn record(self, answer: Lookup) -> (pass: ResolutionPass)
        ensures
            pass@ == after_answer(self@, answer@),
    {
        proof {
            use_type_invariant(&self);
        }
        let ghost before = self@;
        let ResolutionPass { batch, done, mut resolved, mut unresolved, aborted } = self;
        if done >= batch.len() {
            return ResolutionPass { batch, done, resolved, unresolved, aborted };
        }
        match answer {
            Lookup::Resolved(found) => {
                if found.len() > 0 {
                    let line = resolved_line(batch[done].as_str(), &found);
                    proof {
                        assert(texts(resolved@.push(line)) =~= texts(resolved@).push(line@));
                    }
                    resolved.push(line);
                } else {
                    let domain = batch[done].clone();
                    proof {
                        assert(texts(unresolved@.push(domain)) =~= texts(unresolved@).push(domain@));
                    }
                    unresolved.push(domain);
                }
                ResolutionPass { batch, done: done + 1, resolved, unresolved, aborted }
            },
            Lookup::NotFound => {
                let domain = batch[done].clone();
                proof {
                    assert(texts(unresolved@.push(domain)) =~= texts(unresolved@).push(domain@));
                }
                unresolved.push(domain);
                ResolutionPass { batch, done: done + 1, resolved, unresolved, aborted }
            },
            Lookup::PoolUnavailable => {
                let ghost kept = unresolved@;
                let mut i: usize = done;
                while i < batch.len()
                    invariant
                        done <= i <= batch.len(),
                        resolved@.len() + kept.len() == done,
                        unresolved@.len() == kept.len() + (i - done),
                        texts(unresolved@) == texts(kept) + texts(batch@).subrange(
                            done as int,
                            i as int,
                        ),
                    decreases batch.len() - i,
                {
                    let domain = batch[i].clone();
                    proof {
                        let all = texts(batch@);
                        assert(all[i as int] == domain@);
                        assert(texts(unresolved@.push(domain)) =~= texts(unresolved@).push(domain@));
                        assert(all.subrange(done as int, i + 1) =~= all.subrange(
                            done as int,
                            i as int,
                        ).push(domain@));
                        assert(texts(unresolved@).push(domain@) =~= texts(kept) + all.subrange(
                            done as int,
                            i + 1,
                        ));
                    }
                    unresolved.push(domain);
                    i = i + 1;
                }
                proof {
                    assert(texts(batch@).subrange(done as int, batch@.len() as int) =~= texts(
                        batch@,
                    ).skip(done as int));
                }
                let total = batch.len();
                ResolutionPass { batch, done: total, resolved, unresolved, aborted: true }
            },
        }
    }

    /// The lines that report the domains resolved so far, in the order in
    /// which their answers came.
    pub fn resolved_lines(&self) -> (lines: &Vec<String>)
        ensures
            texts(lines@) == self@.resolved,
    {
        &self.resolved
    }

    /// The domains that stay unresolved so far, in the order in which their
    /// answers came.
    pub fn unresolved_domains(&self) -> (domains: &Vec<String>)
        ensures
            texts(domains@) == self@.unresolved,
    {
        &self.unresolved
    }

    /// Whether the pass is over: every domain of the batch was dealt with.
    pub fn is_over(&self) -> (over: bool)
        ensures
            over == (self@.done >= self@.batch.len()),
    {
        self.done >= self.batch.len()
    }

    /// Whether the pass was given up because the pool could not be reached.
    pub fn was_aborted(&self) -> (aborted: bool)
        ensures
            aborted == self@.aborted,
    {
        self.aborted
    }

    /// Ends the pass. Returns the lines that report the resolved domains, and
    /// the domains that stay unresolved: the new list of domains to ask for.
    /// Every domain that was dealt with is in exactly one of the two.
    pub fn finish(self) -> (lists: (Vec<String>, Vec<String>))
        ensures
            texts(lists.0@) == self@.resolved,
            texts(lists.1@) == self@.unresolved,
            lists.0@.len() + lists.1@.len() == self@.done,
    {
        proof {
            use_type_invariant(&self);
        }
        (self.resolved, self.unresolved)
    }
}

} // verus!
