//! Reconciling the registry of a zone with a new publication of the zone.
//!
//! A domain that the publication lists and the registry lacks gets a fresh
//! record. A domain that the registry has and the publication no longer lists
//! is marked as removed; its record stays, with all that was found about it.
//! A domain that was marked as removed and is listed again is marked as back.

use vstd::prelude::*;
use crate::codec::{lemma_key_is_text, texts, ZoneSnapshot};
use crate::domain::{fresh_record, Domain, DomainView};
use crate::registry::{lemma_model_at, model, names, urls, with_domain, with_mark, Registry};
use crate::sorted::contains_sorted;
use crate::tools::{holds_key, only_in, strictly_sorted, symmetric_diff};

verus! {

/// What a new publication asks of the registry.
#[derive(Debug)]
pub struct SyncPlan {
    /// The domains to add: listed, and without a record.
    pub added: Vec<String>,
    /// The domains to mark as removed: with a record, and no longer listed.
    pub removed: Vec<String>,
    /// The domains to mark as back: marked as removed, and listed again.
    pub restored: Vec<String>,
}

/// A `SyncPlan` as plain text values.
pub struct SyncPlanView {
    pub added: Seq<Seq<char>>,
    pub removed: Seq<Seq<char>>,
    pub restored: Seq<Seq<char>>,
}

impl View for SyncPlan {
    type V = SyncPlanView;

    open spec fn view(&self) -> SyncPlanView {
        SyncPlanView {
            added: texts(self.added@),
            removed: texts(self.removed@),
            restored: texts(self.restored@),
        }
    }
}

/// The records that are marked as removed and whose domain is listed.
pub open spec fn restorable(listing: Seq<String>, records: Seq<Domain>) -> Seq<Domain> {
    records.filter(|d: Domain| d.removed && holds_key(listing, d.url))
}

/// What the listing of a new publication asks of a registry with the given records.
pub open spec fn planned(listing: Seq<String>, records: Seq<Domain>) -> SyncPlanView {
    SyncPlanView {
        added: texts(only_in(listing, names(records))),
        removed: texts(only_in(names(records), listing)),
        restored: urls(restorable(listing, records)),
    }
}

/// The registry after a fresh record was added for each of the domains that lacked one.
pub open spec fn with_domains(
    registry: Map<Seq<char>, DomainView>,
    domains: Seq<Seq<char>>,
) -> Map<Seq<char>, DomainView>
    decreases domains.len(),
{
    if domains.len() == 0 {
        registry
    } else {
        with_domain(with_domains(registry, domains.drop_last()), domains.last())
    }
}

/// The registry after the records of the given domains were marked.
pub open spec fn with_marks(
    registry: Map<Seq<char>, DomainView>,
    domains: Seq<Seq<char>>,
    removed: bool,
) -> Map<Seq<char>, DomainView>
    decreases domains.len(),
{
    if domains.len() == 0 {
        registry
    } else {
        with_mark(with_marks(registry, domains.drop_last(), removed), domains.last(), removed)
    }
}

/// The registry after a plan was carried out: the additions, then the
/// removals, then the restorations.
pub open spec fn applied(
    registry: Map<Seq<char>, DomainView>,
    plan: SyncPlanView,
) -> Map<Seq<char>, DomainView> {
    with_marks(
        with_marks(with_domains(registry, plan.added), plan.removed, true),
        plan.restored,
        false,
    )
}

/// How many of the given domains the registry lacks, each counted once.
pub open spec fn count_lacking(registry: Map<Seq<char>, DomainView>, domains: Seq<Seq<char>>) -> nat
    decreases domains.len(),
{
    if domains.len() == 0 {
        0
    } else {
        count_lacking(registry, domains.drop_last()) + if with_domains(
            registry,
            domains.drop_last(),
        ).contains_key(domains.last()) {
            0nat
        } else {
            1nat
        }
    }
}

/// How many of the given domains, counted as often as they are given, the registry has.
pub open spec fn count_held(registry: Map<Seq<char>, DomainView>, domains: Seq<Seq<char>>) -> nat
    decreases domains.len(),
{
    if domains.len() == 0 {
        0
    } else {
        count_held(registry, domains.drop_last()) + if registry.contains_key(domains.last()) {
            1nat
        } else {
            0nat
        }
    }
}

/// How many records a pass added, and how many it marked each way.
#[derive(Debug, Clone, Copy, PartialEq, Eq, Structural)]
pub struct SyncTally {
    /// The number of records added.
    pub added: usize,
    /// The number of records marked as removed.
    pub removed: usize,
    /// The number of records marked as back.
    pub restored: usize,
}

/// The largest number of domains that one insertion into the store carries.
pub const CHUNK_SIZE: usize = 100_000;

/// Where the chunk with the number `k` starts and ends, when `total` items
/// are cut into chunks of `size`.
pub open spec fn chunk_at(total: int, size: int, k: int) -> (int, int) {
    (k * size, if k * size + size < total {
        k * size + size
    } else {
        total
    })
}

/// Cuts `total` items into chunks of `size`, the last of which may be smaller.
/// Returns where each chunk starts and ends. The chunks follow one another
/// from the first item to the last, and none is empty.
pub fn chunk_bounds(total: usize, size: usize) -> (bounds: Vec<(usize, usize)>)
    requires
        size > 0,
    ensures
        bounds@.len() * size >= total,
        bounds@.len() > 0 ==> (bounds@.len() - 1) * size < total,
        forall|k: int|
            0 <= k < bounds@.len() ==> (#[trigger] bounds@[k].0 as int, bounds@[k].1 as int)
                == chunk_at(total as int, size as int, k),
{
    let mut bounds: Vec<(usize, usize)> = Vec::new();
    let mut start: usize = 0;
    proof {
        assert(0 * size == 0) by (nonlinear_arith);
    }
    while start < total
        invariant
            size > 0,
            start <= total,
            start < total ==> start == bounds@.len() * size,
            start == total ==> bounds@.len() * size >= total,
            bounds@.len() > 0 ==> (bounds@.len() - 1) * size < total,
            forall|k: int|
                0 <= k < bounds@.len() ==> (#[trigger] bounds@[k].0 as int, bounds@[k].1 as int)
                    == chunk_at(total as int, size as int, k),
        decreases total - start,
    {
        let end: usize = if total - start > size {
            start + size
        } else {
            total
        };
        proof {
            let n = bounds@.len() as int;
            assert((n + 1) * size == n * size + size) by (nonlinear_arith);
            assert((n + 1 - 1) * size == n * size) by (nonlinear_arith);
        }
        bounds.push((start, end));
        start = end;
    }
    proof {
        if total == 0 {
            assert(bounds@.len() * size >= 0) by (nonlinear_arith)
                requires
                    bounds@.len() >= 0,
                    size > 0,
            ;
        }
    }
    bounds
}

/// The sum of the counts that came back, where one came back.
pub open spec fn counted(results: Seq<Option<u64>>) -> nat
    decreases results.len(),
{
    if results.len() == 0 {
        0
    } else {
        counted(results.drop_last()) + match results.last() {
            Some(n) => n as nat,
            None => 0nat,
        }
    }
}

/// Adds up what a series of requests to the store achieved. A request that
/// succeeded reports a count, one that failed reports none and adds nothing.
/// The sum stops at the largest number that `u64` holds.
pub fn tally_results(results: &Vec<Option<u64>>) -> (sum: u64)
    ensures
        sum == if counted(results@) <= u64::MAX {
            counted(results@)
        } else {
            u64::MAX as nat
        },
{
    let mut sum: u64 = 0;
    let mut i: usize = 0;
    proof {
        assert(results@.take(0) =~= Seq::<Option<u64>>::empty());
    }
    while i < results.len()
        invariant
            i <= results.len(),
            sum == if counted(results@.take(i as int)) <= u64::MAX {
                counted(results@.take(i as int))
            } else {
                u64::MAX as nat
            },
        decreases results.len() - i,
    {
        proof {
            assert(results@.take(i + 1).drop_last() =~= results@.take(i as int));
            assert(results@.take(i + 1).last() == results@[i as int]);
        }
        if let Some(n) = results[i] {
            sum = sum.saturating_add(n);
        }
        i = i + 1;
    }
    proof {
        assert(results@.take(results@.len() as int) =~= results@);
    }
    sum
}

/// A copy of some names.
fn copy_names(source: &Vec<String>) -> (copy: Vec<String>)
    ensures
        copy@ == source@,
{
    let mut copy: Vec<String> = Vec::new();
    let mut i: usize = 0;
    while i < source.len()
        invariant
            i <= source.len(),
            copy@ == source@.take(i as int),
        decreases source.len() - i,
    {
        copy.push(source[i].clone());
        proof {
            assert(source@.take(i as int).push(source@[i as int]) =~= source@.take(i + 1));
        }
        i = i + 1;
    }
    proof {
        assert(source@.take(source@.len() as int) =~= source@);
    }
    copy
}

/// Compares the listing of a new publication with the registry and says what
/// is to be added, what is to be marked as removed, and what as back.
pub fn plan_sync(listing: &ZoneSnapshot, registry: &Registry) -> (plan: SyncPlan)
    requires
        registry.wf(),
    ensures
        plan@ == planned(listing.names(), registry.entries()),
{
    let listed = listing.as_vec();
    let records = registry.records();
    let keys = registry.keys();
    let (added, removed) = symmetric_diff(copy_names(listed), keys);
    let mut restored: Vec<String> = Vec::new();
    let mut i: usize = 0;
    proof {
        reveal(Seq::filter);
        assert(records@.take(0) =~= Seq::<Domain>::empty());
        assert(names(restorable(listed@, records@.take(0))) =~= Seq::<String>::empty());
    }
    while i < records.len()
        invariant
            i <= records.len(),
            strictly_sorted(listed@),
            restored@ == names(restorable(listed@, records@.take(i as int))),
        decreases records.len() - i,
    {
        let record = &records[i];
        let back = record.removed && contains_sorted(listed, &record.url);
        proof {
            reveal(Seq::filter);
            let front = records@.take(i as int);
            assert(records@.take(i + 1).drop_last() =~= front);
            assert(records@.take(i + 1).last() == *record);
            if back {
                assert(names(restorable(listed@, front).push(*record)) =~= names(
                    restorable(listed@, front),
                ).push(record.url));
            }
        }
        if back {
            restored.push(record.url.clone());
        }
        i = i + 1;
    }
    proof {
        assert(records@.take(records@.len() as int) =~= records@);
        assert(texts(names(restorable(listed@, records@))) =~= urls(
            restorable(listed@, records@),
        ));
    }
    SyncPlan { added, removed, restored }
}

/// Carries a plan out on a registry: adds a fresh record for each domain to
/// add, then marks the records of the domains to remove and to restore.
/// Returns how many records were added and how many were marked each way.
pub fn apply_plan(registry: &mut Registry, plan: &SyncPlan) -> (tally: SyncTally)
    requires
        old(registry).wf(),
    ensures
        final(registry).wf(),
        final(registry)@ == applied(old(registry)@, plan@),
        tally.added == count_lacking(old(registry)@, plan@.added),
        tally.removed == count_held(with_domains(old(registry)@, plan@.added), plan@.removed),
        tally.restored == count_held(with_domains(old(registry)@, plan@.added), plan@.restored),
{
    let ghost start = registry@;
    let mut added: usize = 0;
    let mut i: usize = 0;
    while i < plan.added.len()
        invariant
            registry.wf(),
            i <= plan.added.len(),
            added <= i,
            registry@ == with_domains(start, plan@.added.take(i as int)),
            added == count_lacking(start, plan@.added.take(i as int)),
        decreases plan.added.len() - i,
    {
        proof {
            assert(plan@.added.take(i + 1).drop_last() =~= plan@.added.take(i as int));
            assert(plan@.added.take(i + 1).last() == plan.added@[i as int]@);
        }
        if registry.insert_new(plan.added[i].clone()) {
            added = added + 1;
        }
        i = i + 1;
    }
    proof {
        assert(plan@.added.take(plan@.added.len() as int) =~= plan@.added);
    }
    let ghost grown = registry@;
    let mut removed: usize = 0;
    let mut j: usize = 0;
    while j < plan.removed.len()
        invariant
            registry.wf(),
            j <= plan.removed.len(),
            removed <= j,
            registry@ == with_marks(grown, plan@.removed.take(j as int), true),
            registry@.dom() == grown.dom(),
            removed == count_held(grown, plan@.removed.take(j as int)),
        decreases plan.removed.len() - j,
    {
        proof {
            assert(plan@.removed.take(j + 1).drop_last() =~= plan@.removed.take(j as int));
            assert(plan@.removed.take(j + 1).last() == plan.removed@[j as int]@);
        }
        let ghost before = registry@;
        if registry.set_removed(&plan.removed[j], true) {
            removed = removed + 1;
        }
        proof {
            assert(registry@.dom() =~= before.dom());
        }
        j = j + 1;
    }
    proof {
        assert(plan@.removed.take(plan@.removed.len() as int) =~= plan@.removed);
    }
    let ghost marked = registry@;
    let mut restored: usize = 0;
    let mut k: usize = 0;
    while k < plan.restored.len()
        invariant
            registry.wf(),
            k <= plan.restored.len(),
            restored <= k,
            registry@ == with_marks(marked, plan@.restored.take(k as int), false),
            registry@.dom() == grown.dom(),
            restored == count_held(grown, plan@.restored.take(k as int)),
        decreases plan.restored.len() - k,
    {
        proof {
            assert(plan@.restored.take(k + 1).drop_last() =~= plan@.restored.take(k as int));
            assert(plan@.restored.take(k + 1).last() == plan.restored@[k as int]@);
        }
        let ghost before = registry@;
        if registry.set_removed(&plan.restored[k], false) {
            restored = restored + 1;
        }
        proof {
            assert(registry@.dom() =~= before.dom());
        }
        k = k + 1;
    }
    proof {
        assert(plan@.restored.take(plan@.restored.len() as int) =~= plan@.restored);
    }
    SyncTally { added, removed, restored }
}

/// A sequence holds a value if it is its last, or if what comes before holds it.
proof fn lemma_contains_last<A>(s: Seq<A>, x: A)
    requires
        s.len() > 0,
    ensures
        s.contains(x) <==> s.drop_last().contains(x) || s.last() == x,
{
    let front = s.drop_last();
    if s.contains(x) {
        let i = choose|i: int| 0 <= i < s.len() && s[i] == x;
        if i < front.len() {
            assert(front[i] == x);
        }
    }
    if front.contains(x) {
        let i = choose|i: int| 0 <= i < front.len() && front[i] == x;
        assert(s[i] == x);
    }
    if s.last() == x {
        assert(s[s.len() - 1] == x);
    }
}

/// What adding domains does to one name: the registry has it afterwards if it
/// had it or if it was added; a record that was there is unchanged, and one
/// that was added is fresh.
pub proof fn lemma_with_domains_at(
    registry: Map<Seq<char>, DomainView>,
    domains: Seq<Seq<char>>,
    u: Seq<char>,
)
    ensures
        with_domains(registry, domains).contains_key(u) <==> registry.contains_key(u)
            || domains.contains(u),
        registry.contains_key(u) ==> with_domains(registry, domains)[u] == registry[u],
        !registry.contains_key(u) && domains.contains(u) ==> with_domains(registry, domains)[u]
            == fresh_record(u),
    decreases domains.len(),
{
    if domains.len() > 0 {
        lemma_with_domains_at(registry, domains.drop_last(), u);
        lemma_contains_last(domains, u);
    }
}

/// What marking domains does to one name: the registry has the names it had;
/// the record of a marked domain changes in its mark alone, and every other
/// record is unchanged.
pub proof fn lemma_with_marks_at(
    registry: Map<Seq<char>, DomainView>,
    domains: Seq<Seq<char>>,
    removed: bool,
    u: Seq<char>,
)
    ensures
        with_marks(registry, domains, removed).contains_key(u) <==> registry.contains_key(u),
        registry.contains_key(u) ==> with_marks(registry, domains, removed)[u] == if domains.contains(
            u,
        ) {
            DomainView { removed, ..registry[u] }
        } else {
            registry[u]
        },
    decreases domains.len(),
{
    if domains.len() > 0 {
        lemma_with_marks_at(registry, domains.drop_last(), removed, u);
        lemma_with_marks_at(registry, domains.drop_last(), removed, domains.last());
        lemma_contains_last(domains, u);
    }
}

/// The names only in `a` are the names of `a` that `b` lacks.
pub proof fn lemma_only_in_texts(a: Seq<String>, b: Seq<String>, u: Seq<char>)
    ensures
        texts(only_in(a, b)).contains(u) <==> texts(a).contains(u) && !texts(b).contains(u),
{
    let pred = |x: String| !holds_key(b, x);
    let kept = only_in(a, b);
    if texts(kept).contains(u) {
        let i = choose|i: int| 0 <= i < texts(kept).len() && texts(kept)[i] == u;
        let x = kept[i];
        assert(x@ == u);
        a.lemma_filter_pred(pred, i);
        assert(kept.contains(x));
        a.lemma_filter_contains_rev(pred, x);
        let j = choose|j: int| 0 <= j < a.len() && a[j] == x;
        assert(texts(a)[j] == u);
        lemma_key_is_text(b, x);
    }
    if texts(a).contains(u) && !texts(b).contains(u) {
        let j = choose|j: int| 0 <= j < texts(a).len() && texts(a)[j] == u;
        let x = a[j];
        lemma_key_is_text(b, x);
        a.lemma_filter_contains(pred, j);
        let i = choose|i: int| 0 <= i < kept.len() && kept[i] == x;
        assert(texts(kept)[i] == u);
    }
}

/// The names to restore are those of the listed domains whose record is marked as removed.
pub proof fn lemma_restorable_texts(listing: Seq<String>, records: Seq<Domain>, u: Seq<char>)
    requires
        strictly_sorted(records),
    ensures
        urls(restorable(listing, records)).contains(u) <==> model(records).contains_key(u)
            && model(records)[u].removed && texts(listing).contains(u),
{
    let pred = |d: Domain| d.removed && holds_key(listing, d.url);
    let kept = restorable(listing, records);
    if urls(kept).contains(u) {
        let i = choose|i: int| 0 <= i < urls(kept).len() && urls(kept)[i] == u;
        let d = kept[i];
        records.lemma_filter_pred(pred, i);
        assert(kept.contains(d));
        records.lemma_filter_contains_rev(pred, d);
        let j = choose|j: int| 0 <= j < records.len() && records[j] == d;
        lemma_model_at(records, j);
        lemma_key_is_text(listing, d.url);
    }
    if model(records).contains_key(u) && model(records)[u].removed && texts(listing).contains(u) {
        let j = urls(records).index_of(u);
        assert(urls(records)[j] == u);
        lemma_model_at(records, j);
        let d = records[j];
        lemma_key_is_text(listing, d.url);
        records.lemma_filter_contains(pred, j);
        let i = choose|i: int| 0 <= i < kept.len() && kept[i] == d;
        assert(urls(kept)[i] == u);
    }
}

/// After a pass, the registry has a record that is not marked as removed for
/// every listed domain, and every domain that it had and that is no longer
/// listed is marked as removed. A record that was there changes in its mark
/// alone, so what the probes found stays; a record that was added is fresh.
pub proof fn lemma_sync_reconciles(listing: Seq<String>, records: Seq<Domain>, u: Seq<char>)
    requires
        strictly_sorted(listing),
        strictly_sorted(records),
    ensures
        ({
            let before = model(records);
            let after = applied(before, planned(listing, records));
            let listed = texts(listing).contains(u);
            &&& after.contains_key(u) <==> before.contains_key(u) || listed
            &&& listed ==> after.contains_key(u) && !after[u].removed
            &&& before.contains_key(u) ==> after[u] == DomainView {
                removed: !listed,
                ..before[u]
            }
            &&& !before.contains_key(u) && listed ==> after[u] == fresh_record(u)
        }),
{
    let before = model(records);
    let plan = planned(listing, records);
    let grown = with_domains(before, plan.added);
    let marked = with_marks(grown, plan.removed, true);
    assert(texts(names(records)) =~= urls(records));
    lemma_only_in_texts(listing, names(records), u);
    lemma_only_in_texts(names(records), listing, u);
    lemma_restorable_texts(listing, records, u);
    lemma_with_domains_at(before, plan.added, u);
    lemma_with_marks_at(grown, plan.removed, true, u);
    lemma_with_marks_at(marked, plan.restored, false, u);
}

} // verus!
