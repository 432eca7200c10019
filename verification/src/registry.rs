//! The registry of one zone: a record for every domain name ever seen in it.
//!
//! The registry is held in memory, sorted by domain name. It states what the
//! persistent store is asked to do, and stands in for it where none is at hand.

use vstd::prelude::*;
use crate::domain::{awaits_lookup, fresh_record, looked_up, Domain, DomainView};
use crate::order::{lemma_lex_asymmetric, lemma_lex_connected, lemma_lex_irreflexive,
    lemma_text_rank_decides, lex_less, text_rank, SortKey};
use crate::sorted::{is_place, is_strictly_sorted, lemma_insert_keeps_sorted, lemma_place_decides,
    lower_bound};
use crate::tools::{holds_key, strictly_sorted};

verus! {

/// The domain names of some records.
pub open spec fn urls(records: Seq<Domain>) -> Seq<Seq<char>> {
    records.map_values(|d: Domain| d.url@)
}

/// The domain names of some records, as strings.
pub open spec fn names(records: Seq<Domain>) -> Seq<String> {
    records.map_values(|d: Domain| d.url)
}

/// The records by their domain names.
pub open spec fn model(records: Seq<Domain>) -> Map<Seq<char>, DomainView> {
    Map::new(
        |u: Seq<char>| urls(records).contains(u),
        |u: Seq<char>| records[urls(records).index_of(u)]@,
    )
}

/// The registry with a record for `url`: the one it has, or else a fresh one.
pub open spec fn with_domain(
    registry: Map<Seq<char>, DomainView>,
    url: Seq<char>,
) -> Map<Seq<char>, DomainView> {
    if registry.contains_key(url) {
        registry
    } else {
        registry.insert(url, fresh_record(url))
    }
}

/// The registry with the record of `url`, if it has one, marked as removed or
/// as not removed. Nothing else of the record changes.
pub open spec fn with_mark(
    registry: Map<Seq<char>, DomainView>,
    url: Seq<char>,
    removed: bool,
) -> Map<Seq<char>, DomainView> {
    if registry.contains_key(url) {
        registry.insert(url, DomainView { removed, ..registry[url] })
    } else {
        registry
    }
}

/// Whether the registry has a record for `url` that is due for its probe.
pub open spec fn is_due(registry: Map<Seq<char>, DomainView>, url: Seq<char>) -> bool {
    registry.contains_key(url) && awaits_lookup(registry[url])
}

/// Once the probe of a domain is recorded, the domain is not due for a probe
/// again, whatever the probe found. Marking records as removed or as back, and
/// adding records for other domains, does not make it due.
pub proof fn lemma_lookup_is_final(
    registry: Map<Seq<char>, DomainView>,
    url: Seq<char>,
    http: Option<crate::site::SiteView>,
    https: Option<crate::site::SiteView>,
    other: Seq<char>,
    removed: bool,
)
    requires
        registry.contains_key(url),
    ensures
        ({
            let probed = registry.insert(url, looked_up(registry[url], http, https));
            &&& !is_due(probed, url)
            &&& !is_due(with_mark(probed, other, removed), url)
            &&& !is_due(with_domain(probed, other), url)
        }),
{
}

/// In sorted records, each record is the one that the model has under its name.
pub proof fn lemma_model_at(records: Seq<Domain>, i: int)
    requires
        strictly_sorted(records),
        0 <= i < records.len(),
    ensures
        model(records).contains_key(records[i].url@),
        model(records)[records[i].url@] == records[i]@,
{
    let u = records[i].url@;
    assert(urls(records)[i] == u);
    assert(urls(records).contains(u));
    let j = urls(records).index_of(u);
    assert(0 <= j < records.len() && urls(records)[j] == u);
    assert(records[j].url@ == u);
    if j != i {
        lemma_lex_irreflexive(records[i].rank());
        assert(records[j].rank() == records[i].rank());
        if j < i {
            assert(lex_less(records[j].rank(), records[i].rank()));
        } else {
            assert(lex_less(records[i].rank(), records[j].rank()));
        }
    }
}

/// Records hold the key of a record exactly where the model has its name.
pub proof fn lemma_model_has(records: Seq<Domain>, x: Domain)
    ensures
        holds_key(records, x) <==> model(records).contains_key(x.url@),
{
    if holds_key(records, x) {
        let i = choose|i: int| 0 <= i < records.len() && #[trigger] records[i].rank() == x.rank();
        lemma_text_rank_decides(records[i].url@, x.url@);
        assert(urls(records)[i] == x.url@);
    }
    if model(records).contains_key(x.url@) {
        let i = urls(records).index_of(x.url@);
        assert(urls(records)[i] == x.url@);
        assert(records[i].rank() == x.rank());
    }
}

/// Putting a record with a new name at its place adds it to the model.
pub proof fn lemma_model_insert(records: Seq<Domain>, p: int, x: Domain)
    requires
        strictly_sorted(records),
        is_place(records, x, p),
        !holds_key(records, x),
    ensures
        strictly_sorted(records.insert(p, x)),
        model(records.insert(p, x)) == model(records).insert(x.url@, x@),
{
    lemma_insert_keeps_sorted(records, x, p);
    let after = records.insert(p, x);
    let want = model(records).insert(x.url@, x@);
    assert forall|u: Seq<char>| model(after).contains_key(u) <==> want.contains_key(u) by {
        if model(after).contains_key(u) {
            let i = urls(after).index_of(u);
            assert(urls(after)[i] == u);
            if i < p {
                assert(urls(records)[i] == u);
            } else if i > p {
                assert(urls(records)[i - 1] == u);
            }
        }
        if model(records).contains_key(u) {
            let i = urls(records).index_of(u);
            assert(urls(records)[i] == u);
            if i < p {
                assert(urls(after)[i] == u);
            } else {
                assert(urls(after)[i + 1] == u);
            }
        }
        if u == x.url@ {
            assert(urls(after)[p] == u);
        }
    }
    assert forall|u: Seq<char>| model(after).contains_key(u) implies model(after)[u] == want[u] by {
        if u == x.url@ {
            lemma_model_at(after, p);
        } else {
            assert(want.contains_key(u));
            assert(model(records).contains_key(u));
            assert(urls(records).contains(u));
            let i = urls(records).index_of(u);
            assert(urls(records)[i] == u);
            lemma_model_at(records, i);
            if i < p {
                lemma_model_at(after, i);
            } else {
                lemma_model_at(after, i + 1);
            }
        }
    }
    assert(model(after) =~= want);
}

/// Replacing a record by one of the same name replaces it in the model.
pub proof fn lemma_model_update(records: Seq<Domain>, p: int, x: Domain)
    requires
        strictly_sorted(records),
        0 <= p < records.len(),
        records[p].url@ == x.url@,
    ensures
        strictly_sorted(records.update(p, x)),
        model(records.update(p, x)) == model(records).insert(x.url@, x@),
{
    let after = records.update(p, x);
    assert forall|i: int| 0 <= i < after.len() implies #[trigger] after[i].rank()
        == records[i].rank() by {}
    assert forall|i: int, j: int| 0 <= i < j < after.len() implies lex_less(
        #[trigger] after[i].rank(),
        #[trigger] after[j].rank(),
    ) by {
        assert(lex_less(records[i].rank(), records[j].rank()));
    }
    let want = model(records).insert(x.url@, x@);
    assert(urls(after) =~= urls(records));
    assert forall|u: Seq<char>| model(after).contains_key(u) <==> want.contains_key(u) by {
        if u == x.url@ {
            assert(urls(after)[p] == u);
        }
    }
    assert forall|u: Seq<char>| model(after).contains_key(u) implies model(after)[u] == want[u] by {
        assert(urls(records).contains(u));
        let i = urls(records).index_of(u);
        assert(urls(records)[i] == u);
        lemma_model_at(records, i);
        lemma_model_at(after, i);
        if i != p && u == x.url@ {
            lemma_lex_irreflexive(records[p].rank());
            assert(records[i].rank() == records[p].rank());
            if i < p {
                assert(lex_less(records[i].rank(), records[p].rank()));
            } else {
                assert(lex_less(records[p].rank(), records[i].rank()));
            }
        }
    }
    assert(model(after) =~= want);
}

/// The registry of one zone.
pub struct Registry {
    records: Vec<Domain>,
}

impl View for Registry {
    type V = Map<Seq<char>, DomainView>;

    /// The records by their domain names.
    closed spec fn view(&self) -> Map<Seq<char>, DomainView> {
        model(self.records@)
    }
}

impl Registry {
    /// Whether the registry is well formed: its records are sorted by domain
    /// name and no name has two records. Every registry made and changed by
    /// the functions of this type is.
    pub closed spec fn wf(&self) -> bool {
        strictly_sorted(self.records@)
    }

    /// The records, sorted by domain name.
    pub closed spec fn entries(&self) -> Seq<Domain> {
        self.records@
    }

    /// A registry without records.
    pub fn new() -> (registry: Registry)
        ensures
            registry.wf(),
            registry.entries() == Seq::<Domain>::empty(),
            registry@ == Map::<Seq<char>, DomainView>::empty(),
    {
        let registry = Registry { records: Vec::new() };
        proof {
            assert(registry@ =~= Map::<Seq<char>, DomainView>::empty());
        }
        registry
    }

    /// The registry of the given records, which must come sorted by domain
    /// name with no name twice; `None` where they do not.
    pub fn from_records(records: Vec<Domain>) -> (registry: Option<Registry>)
        ensures
            registry is Some <==> strictly_sorted(records@),
            registry matches Some(r) ==> r.wf() && r.entries() == records@ && r@ == model(
                records@,
            ),
    {
        if is_strictly_sorted(&records) {
            Some(Registry { records })
        } else {
            None
        }
    }

    /// The records, sorted by domain name.
    pub fn records(&self) -> (records: &Vec<Domain>)
        requires
            self.wf(),
        ensures
            records@ == self.entries(),
            strictly_sorted(records@),
            model(records@) == self@,
    {
        &self.records
    }

    /// The number of records.
    pub fn len(&self) -> (n: usize)
        requires
            self.wf(),
        ensures
            n == self@.dom().len(),
    {
        proof {
            lemma_model_size(self.records@);
        }
        self.records.len()
    }

    /// Where the record of `probe`'s domain stands, if the registry has one.
    fn position(&self, probe: &Domain) -> (found: Result<usize, usize>)
        requires
            self.wf(),
        ensures
            strictly_sorted(self.records@),
            match found {
                Ok(p) => p < self.records@.len() && self.records@[p as int].url@ == probe.url@,
                Err(p) => is_place(self.records@, *probe, p as int) && !holds_key(
                    self.records@,
                    *probe,
                ),
            },
            found is Ok <==> self@.contains_key(probe.url@),
    {
        proof {
            lemma_model_has(self.records@, *probe);
        }
        let p = lower_bound(&self.records, probe);
        proof {
            lemma_place_decides(self.records@, *probe, p as int);
        }
        if p < self.records.len() {
            let same = !probe.precedes(&self.records[p]);
            proof {
                lemma_lex_connected(self.records@[p as int].rank(), probe.rank());
                lemma_lex_irreflexive(probe.rank());
                if same {
                    lemma_text_rank_decides(self.records@[p as int].url@, probe.url@);
                }
            }
            if same {
                return Ok(p);
            }
        }
        Err(p)
    }

    /// A copy of the record of a domain, if the registry has one.
    pub fn get(&self, url: &String) -> (record: Option<Domain>)
        requires
            self.wf(),
        ensures
            match record {
                Some(r) => self@.contains_key(url@) && self@[url@] == r@,
                None => !self@.contains_key(url@),
            },
    {
        let probe = Domain::new(url.clone());
        match self.position(&probe) {
            Ok(p) => {
                proof {
                    lemma_model_at(self.records@, p as int);
                }
                Some(self.records[p].duplicate())
            },
            Err(_) => None,
        }
    }

    /// Adds a fresh record for a domain, unless the registry has one for it.
    /// Says whether a record was added.
    pub fn insert_new(&mut self, url: String) -> (added: bool)
        requires
            old(self).wf(),
        ensures
            final(self).wf(),
            final(self)@ == with_domain(old(self)@, url@),
            added == !old(self)@.contains_key(url@),
    {
        let record = Domain::new(url);
        match self.position(&record) {
            Ok(_) => false,
            Err(p) => {
                proof {
                    lemma_model_insert(self.records@, p as int, record);
                }
                self.records.insert(p, record);
                true
            },
        }
    }

    /// Marks the record of a domain as removed from its zone, or as back in
    /// it. Says whether the registry has a record for the domain.
    pub fn set_removed(&mut self, url: &String, removed: bool) -> (found: bool)
        requires
            old(self).wf(),
        ensures
            final(self).wf(),
            final(self)@ == with_mark(old(self)@, url@, removed),
            found == old(self)@.contains_key(url@),
    {
        let probe = Domain::new(url.clone());
        match self.position(&probe) {
            Ok(p) => {
                let mut record = self.records[p].duplicate();
                record.removed = removed;
                proof {
                    lemma_model_at(self.records@, p as int);
                    lemma_model_update(self.records@, p as int, record);
                }
                self.records.set(p, record);
                true
            },
            Err(_) => false,
        }
    }

    /// Puts a record into the registry, in place of the one that its domain
    /// had, if it had one.
    pub fn store(&mut self, record: Domain)
        requires
            old(self).wf(),
        ensures
            final(self).wf(),
            final(self)@ == old(self)@.insert(record.url@, record@),
    {
        match self.position(&record) {
            Ok(p) => {
                proof {
                    lemma_model_update(self.records@, p as int, record);
                }
                self.records.set(p, record);
            },
            Err(p) => {
                proof {
                    lemma_model_insert(self.records@, p as int, record);
                }
                self.records.insert(p, record);
            },
        }
    }

    /// A copy of the first record, in the order of the domain names, that is
    /// due for its probe, or `None` where no record is. A record that has
    /// been probed, or whose domain is removed, is never handed out.
    pub fn select(&self) -> (record: Option<Domain>)
        requires
            self.wf(),
        ensures
            match record {
                Some(r) => {
                    &&& is_due(self@, r.url@)
                    &&& self@[r.url@] == r@
                    &&& forall|u: Seq<char>|
                        is_due(self@, u) ==> !lex_less(text_rank(u), text_rank(r.url@))
                },
                None => forall|u: Seq<char>| !is_due(self@, u),
            },
    {
        let mut i: usize = 0;
        while i < self.records.len()
            invariant
                strictly_sorted(self.records@),
                i <= self.records.len(),
                forall|k: int| 0 <= k < i ==> !awaits_lookup(#[trigger] self.records@[k]@),
            decreases self.records.len() - i,
        {
            if self.records[i].awaits_lookup() {
                proof {
                    lemma_model_at(self.records@, i as int);
                    assert forall|u: Seq<char>| is_due(self@, u) implies !lex_less(
                        text_rank(u),
                        text_rank(self.records@[i as int].url@),
                    ) by {
                        let k = urls(self.records@).index_of(u);
                        assert(urls(self.records@)[k] == u);
                        lemma_model_at(self.records@, k);
                        if k > i {
                            lemma_lex_asymmetric(
                                self.records@[i as int].rank(),
                                self.records@[k].rank(),
                            );
                        } else {
                            lemma_lex_irreflexive(self.records@[i as int].rank());
                        }
                    }
                }
                return Some(self.records[i].duplicate());
            }
            i = i + 1;
        }
        proof {
            assert forall|u: Seq<char>| self@.contains_key(u) implies !awaits_lookup(self@[u]) by {
                assert(urls(self.records@).contains(u));
                let k = urls(self.records@).index_of(u);
                assert(urls(self.records@)[k] == u);
                lemma_model_at(self.records@, k);
            }
        }
        None
    }

    /// The domain names of all records, in ascending order.
    pub fn keys(&self) -> (keys: Vec<String>)
        requires
            self.wf(),
        ensures
            strictly_sorted(keys@),
            keys@ == names(self.entries()),
            crate::codec::texts(keys@).to_set() == self@.dom(),
    {
        let mut keys: Vec<String> = Vec::new();
        let mut i: usize = 0;
        while i < self.records.len()
            invariant
                i <= self.records.len(),
                keys@.len() == i,
                forall|k: int| 0 <= k < i ==> #[trigger] keys@[k] == self.records@[k].url,
            decreases self.records.len() - i,
        {
            keys.push(self.records[i].url.clone());
            i = i + 1;
        }
        proof {
            assert(keys@ =~= names(self.records@));
            assert(crate::codec::texts(keys@) =~= urls(self.records@));
            assert forall|a: int, b: int| 0 <= a < b < keys@.len() implies lex_less(
                #[trigger] keys@[a].rank(),
                #[trigger] keys@[b].rank(),
            ) by {
                assert(lex_less(self.records@[a].rank(), self.records@[b].rank()));
            }
            assert(urls(self.records@).to_set() =~= self@.dom());
        }
        keys
    }
}

/// Sorted records are as many as the names in their model.
pub proof fn lemma_model_size(records: Seq<Domain>)
    requires
        strictly_sorted(records),
    ensures
        model(records).dom().finite(),
        model(records).dom().len() == records.len(),
    decreases records.len(),
{
    if records.len() == 0 {
        assert(model(records).dom() =~= Set::<Seq<char>>::empty());
    } else {
        let front = records.drop_last();
        let x = records.last();
        assert(strictly_sorted(front)) by {
            assert forall|i: int, j: int| 0 <= i < j < front.len() implies lex_less(
                #[trigger] front[i].rank(),
                #[trigger] front[j].rank(),
            ) by {
                assert(front[i] == records[i] && front[j] == records[j]);
            }
        }
        lemma_model_size(front);
        assert(is_place(front, x, front.len() as int)) by {
            assert forall|i: int| 0 <= i < front.len() implies lex_less(
                #[trigger] front[i].rank(),
                x.rank(),
            ) by {
                assert(front[i] == records[i]);
                assert(x == records[records.len() - 1]);
            }
        }
        assert(!holds_key(front, x)) by {
            lemma_place_decides(front, x, front.len() as int);
        }
        lemma_model_insert(front, front.len() as int, x);
        assert(front.insert(front.len() as int, x) =~= records);
        lemma_model_has(front, x);
        assert(model(records).dom() =~= model(front).dom().insert(x.url@));
    }
}

} // verus!
