//! The symmetric difference of two sorted sequences.

use vstd::prelude::*;
use vstd::std_specs::iter::IteratorSpec;
use crate::order::{lex_less, lemma_lex_asymmetric, lemma_lex_connected, lemma_lex_irreflexive,
    lemma_lex_transitive, SortKey};

verus! {

/// Every element comes strictly before the elements after it: the sequence is
/// sorted and holds no key twice.
pub open spec fn strictly_sorted<E: SortKey>(s: Seq<E>) -> bool {
    forall|i: int, j: int|
        0 <= i < j < s.len() ==> lex_less(#[trigger] s[i].rank(), #[trigger] s[j].rank())
}

/// Whether `s` holds an element with the key of `x`.
pub open spec fn holds_key<E: SortKey>(s: Seq<E>, x: E) -> bool {
    exists|i: int| 0 <= i < s.len() && #[trigger] s[i].rank() == x.rank()
}

/// The elements of `a` whose key `b` does not hold, in the order of `a`.
pub open spec fn only_in<E: SortKey>(a: Seq<E>, b: Seq<E>) -> Seq<E> {
    a.filter(|x: E| !holds_key(b, x))
}

/// The symmetric difference of `a` and `b`: what only `a` holds, and what only `b` holds.
pub open spec fn symmetric_difference<E: SortKey>(a: Seq<E>, b: Seq<E>) -> (Seq<E>, Seq<E>) {
    (only_in(a, b), only_in(b, a))
}

/// Appending an element to `a` appends it to `only_in(a, b)` unless `b` holds its key.
pub proof fn lemma_only_in_push<E: SortKey>(a: Seq<E>, x: E, b: Seq<E>)
    ensures
        only_in(a.push(x), b) == if holds_key(b, x) {
            only_in(a, b)
        } else {
            only_in(a, b).push(x)
        },
{
    reveal(Seq::filter);
    assert(a.push(x).drop_last() =~= a);
}

/// Takes the next element from an iterator.
fn advance<I: Iterator>(rest: &mut I) -> (head: Option<I::Item>)
    requires
        (*old(rest)).obeys_prophetic_iter_laws(),
    ensures
        (*final(rest)).obeys_prophetic_iter_laws(),
        (*old(rest)).remaining().len() > 0 ==> head == Some((*old(rest)).remaining()[0])
            && (*final(rest)).remaining() == (*old(rest)).remaining().drop_first(),
        (*old(rest)).remaining().len() == 0 ==> head is None && (*final(rest)).remaining().len() == 0,
{
    rest.next()
}

/// The symmetric difference of two sorted sequences, in one pass over both.
///
/// The first vector returned holds the elements of `a` that are not in `b`,
/// the second those of `b` that are not in `a`, each in its input's order.
/// Both inputs must be sorted and hold no key twice.
pub fn symmetric_diff<E: SortKey>(a: Vec<E>, b: Vec<E>) -> (r: (Vec<E>, Vec<E>))
    requires
        strictly_sorted(a@),
        strictly_sorted(b@),
    ensures
        (r.0@, r.1@) == symmetric_difference(a@, b@),
        (r.0@, r.1@) == merged(a@, b@),
{
    broadcast use vstd::std_specs::vec::axiom_spec_into_iter;
    let ghost sa = a@;
    let ghost sb = b@;
    let mut rest_a = a.into_iter();
    let mut rest_b = b.into_iter();
    let mut a_value = advance(&mut rest_a);
    let mut b_value = advance(&mut rest_b);
    let mut first: Vec<E> = Vec::new();
    let mut second: Vec<E> = Vec::new();
    let ghost mut i: int = 0;
    let ghost mut j: int = 0;
    proof {
        reveal(Seq::filter);
        assert(sa.take(0) =~= Seq::<E>::empty());
        assert(sb.take(0) =~= Seq::<E>::empty());
    }

    while a_value.is_some() && b_value.is_some()
        invariant
            strictly_sorted(sa),
            strictly_sorted(sb),
            0 <= i <= sa.len(),
            0 <= j <= sb.len(),
            i < sa.len() ==> a_value == Some(sa[i]) && rest_a.remaining() == sa.skip(i + 1),
            i == sa.len() ==> a_value is None && rest_a.remaining().len() == 0,
            j < sb.len() ==> b_value == Some(sb[j]) && rest_b.remaining() == sb.skip(j + 1),
            j == sb.len() ==> b_value is None && rest_b.remaining().len() == 0,
            first@ == only_in(sa.take(i), sb),
            second@ == only_in(sb.take(j), sa),
            i < sa.len() ==> forall|k: int| 0 <= k < j ==> lex_less(#[trigger] sb[k].rank(), sa[i].rank()),
            j < sb.len() ==> forall|k: int| 0 <= k < i ==> lex_less(#[trigger] sa[k].rank(), sb[j].rank()),
        decreases (sa.len() - i) + (sb.len() - j),
    {
        let a_first = a_value.as_ref().unwrap().precedes(b_value.as_ref().unwrap());
        let b_first = b_value.as_ref().unwrap().precedes(a_value.as_ref().unwrap());
        proof {
            lemma_lex_connected(sa[i].rank(), sb[j].rank());
            if a_first {
                lemma_lex_asymmetric(sa[i].rank(), sb[j].rank());
            }
        }
        if a_first {
            proof {
                lemma_head_is_missing(sa, i, sb, j);
                lemma_only_in_push(sa.take(i), sa[i], sb);
                assert(sa.take(i).push(sa[i]) =~= sa.take(i + 1));
                lemma_next_head(sa, i, sb, j, true);
            }
            first.push(a_value.unwrap());
            a_value = advance(&mut rest_a);
            proof {
                if i + 1 < sa.len() {
                    assert(sa.skip(i + 1).drop_first() =~= sa.skip(i + 2));
                }
                i = i + 1;
            }
        } else if b_first {
            proof {
                lemma_head_is_missing(sb, j, sa, i);
                lemma_only_in_push(sb.take(j), sb[j], sa);
                assert(sb.take(j).push(sb[j]) =~= sb.take(j + 1));
                lemma_next_head(sb, j, sa, i, true);
            }
            second.push(b_value.unwrap());
            b_value = advance(&mut rest_b);
            proof {
                if j + 1 < sb.len() {
                    assert(sb.skip(j + 1).drop_first() =~= sb.skip(j + 2));
                }
                j = j + 1;
            }
        } else {
            proof {
                assert(holds_key(sb, sa[i]));
                assert(holds_key(sa, sb[j]));
                lemma_only_in_push(sa.take(i), sa[i], sb);
                lemma_only_in_push(sb.take(j), sb[j], sa);
                assert(sa.take(i).push(sa[i]) =~= sa.take(i + 1));
                assert(sb.take(j).push(sb[j]) =~= sb.take(j + 1));
                lemma_next_head(sa, i, sb, j, false);
                lemma_next_head(sb, j, sa, i, false);
            }
            a_value = advance(&mut rest_a);
            b_value = advance(&mut rest_b);
            proof {
                if i + 1 < sa.len() {
                    assert(sa.skip(i + 1).drop_first() =~= sa.skip(i + 2));
                }
                if j + 1 < sb.len() {
                    assert(sb.skip(j + 1).drop_first() =~= sb.skip(j + 2));
                }
                i = i + 1;
                j = j + 1;
            }
        }
    }

    while a_value.is_some()
        invariant
            strictly_sorted(sa),
            strictly_sorted(sb),
            0 <= i <= sa.len(),
            0 <= j <= sb.len(),
            i < sa.len() ==> j == sb.len(),
            i < sa.len() ==> a_value == Some(sa[i]) && rest_a.remaining() == sa.skip(i + 1),
            i == sa.len() ==> a_value is None && rest_a.remaining().len() == 0,
            first@ == only_in(sa.take(i), sb),
            i < sa.len() ==> forall|k: int| 0 <= k < j ==> lex_less(#[trigger] sb[k].rank(), sa[i].rank()),
        decreases sa.len() - i,
    {
        proof {
            lemma_tail_is_missing(sa, i, sb);
            lemma_only_in_push(sa.take(i), sa[i], sb);
            assert(sa.take(i).push(sa[i]) =~= sa.take(i + 1));
            lemma_next_head(sa, i, sb, j, true);
        }
        first.push(a_value.unwrap());
        a_value = advance(&mut rest_a);
        proof {
            if i + 1 < sa.len() {
                    assert(sa.skip(i + 1).drop_first() =~= sa.skip(i + 2));
                }
            i = i + 1;
        }
    }

    while b_value.is_some()
        invariant
            strictly_sorted(sa),
            strictly_sorted(sb),
            0 <= j <= sb.len(),
            i == sa.len(),
            j < sb.len() ==> b_value == Some(sb[j]) && rest_b.remaining() == sb.skip(j + 1),
            j == sb.len() ==> b_value is None && rest_b.remaining().len() == 0,
            second@ == only_in(sb.take(j), sa),
            j < sb.len() ==> forall|k: int| 0 <= k < i ==> lex_less(#[trigger] sa[k].rank(), sb[j].rank()),
        decreases sb.len() - j,
    {
        proof {
            lemma_tail_is_missing(sb, j, sa);
            lemma_only_in_push(sb.take(j), sb[j], sa);
            assert(sb.take(j).push(sb[j]) =~= sb.take(j + 1));
            lemma_next_head(sb, j, sa, i, true);
        }
        second.push(b_value.unwrap());
        b_value = advance(&mut rest_b);
        proof {
            if j + 1 < sb.len() {
                    assert(sb.skip(j + 1).drop_first() =~= sb.skip(j + 2));
                }
            j = j + 1;
        }
    }

    proof {
        assert(sa.take(i) =~= sa);
        assert(sb.take(j) =~= sb);
        lemma_difference_is_merged(sa, sb);
    }
    (first, second)
}

/// While merging, the head `s[i]` of one sequence that comes before the head
/// `t[j]` of the other has no equal in `t`.
proof fn lemma_head_is_missing<E: SortKey>(s: Seq<E>, i: int, t: Seq<E>, j: int)
    requires
        strictly_sorted(t),
        0 <= i < s.len(),
        0 <= j < t.len(),
        lex_less(s[i].rank(), t[j].rank()),
        forall|k: int| 0 <= k < j ==> lex_less(#[trigger] t[k].rank(), s[i].rank()),
    ensures
        !holds_key(t, s[i]),
{
    assert forall|k: int| 0 <= k < t.len() implies #[trigger] t[k].rank() != s[i].rank() by {
        if k < j {
            lemma_lex_irreflexive(s[i].rank());
        } else if k == j {
            lemma_lex_irreflexive(s[i].rank());
        } else {
            lemma_lex_transitive(s[i].rank(), t[j].rank(), t[k].rank());
            lemma_lex_irreflexive(s[i].rank());
        }
    }
}

/// Once `t` is used up, the head `s[i]` of the other sequence has no equal in `t`.
proof fn lemma_tail_is_missing<E: SortKey>(s: Seq<E>, i: int, t: Seq<E>)
    requires
        0 <= i < s.len(),
        forall|k: int| 0 <= k < t.len() ==> lex_less(#[trigger] t[k].rank(), s[i].rank()),
    ensures
        !holds_key(t, s[i]),
{
    assert forall|k: int| 0 <= k < t.len() implies #[trigger] t[k].rank() != s[i].rank() by {
        lemma_lex_irreflexive(s[i].rank());
    }
}

/// What is known of the heads after a step of the merge. With `s` advanced
/// past `s[i]`, every element of `t` that came before the old head comes
/// before the new one; and where the old head came before `t[j]` (`strict`) or
/// had its key, every element of `s` up to it comes before what follows `t[j]`
/// or before `t[j]` itself.
proof fn lemma_next_head<E: SortKey>(s: Seq<E>, i: int, t: Seq<E>, j: int, strict: bool)
    requires
        strictly_sorted(s),
        strictly_sorted(t),
        0 <= i < s.len(),
        0 <= j <= t.len(),
        forall|k: int| 0 <= k < j ==> lex_less(#[trigger] t[k].rank(), s[i].rank()),
        j < t.len() ==> forall|k: int| 0 <= k < i ==> lex_less(#[trigger] s[k].rank(), t[j].rank()),
        strict && j < t.len() ==> lex_less(s[i].rank(), t[j].rank()),
        !strict ==> j < t.len() && s[i].rank() == t[j].rank(),
    ensures
        i + 1 < s.len() ==> forall|k: int|
            0 <= k < j ==> lex_less(#[trigger] t[k].rank(), s[i + 1].rank()),
        !strict && i + 1 < s.len() ==> lex_less(t[j].rank(), s[i + 1].rank()),
        strict && j < t.len() ==> forall|k: int|
            0 <= k < i + 1 ==> lex_less(#[trigger] s[k].rank(), t[j].rank()),
        !strict && j + 1 < t.len() ==> forall|k: int|
            0 <= k < i + 1 ==> lex_less(#[trigger] s[k].rank(), t[j + 1].rank()),
{
    if i + 1 < s.len() {
        assert forall|k: int| 0 <= k < j implies lex_less(
            #[trigger] t[k].rank(),
            s[i + 1].rank(),
        ) by {
            lemma_lex_transitive(t[k].rank(), s[i].rank(), s[i + 1].rank());
        }
    }
    if !strict && j + 1 < t.len() {
        assert forall|k: int| 0 <= k < i + 1 implies lex_less(
            #[trigger] s[k].rank(),
            t[j + 1].rank(),
        ) by {
            if k < i {
                lemma_lex_transitive(s[k].rank(), t[j].rank(), t[j + 1].rank());
            }
        }
    }
}

/// The keys that a sequence holds.
pub open spec fn key_set<E: SortKey>(s: Seq<E>) -> Set<Seq<int>> {
    Set::new(|r: Seq<int>| exists|i: int| 0 <= i < s.len() && #[trigger] s[i].rank() == r)
}

/// Where `b` holds the key of every element of `a`, nothing is only in `a`.
pub proof fn lemma_only_in_covered<E: SortKey>(a: Seq<E>, b: Seq<E>)
    requires
        forall|i: int| 0 <= i < a.len() ==> holds_key(b, #[trigger] a[i]),
    ensures
        only_in(a, b) == Seq::<E>::empty(),
    decreases a.len(),
{
    if a.len() == 0 {
        reveal(Seq::filter);
        assert(only_in(a, b) =~= Seq::<E>::empty());
    } else {
        let front = a.drop_last();
        assert(a =~= front.push(a.last()));
        assert forall|i: int| 0 <= i < front.len() implies holds_key(b, #[trigger] front[i]) by {
            assert(front[i] == a[i]);
        }
        lemma_only_in_covered(front, b);
        lemma_only_in_push(front, a.last(), b);
    }
}

/// Where `b` holds the key of no element of `a`, all of `a` is only in `a`.
pub proof fn lemma_only_in_apart<E: SortKey>(a: Seq<E>, b: Seq<E>)
    requires
        forall|i: int| 0 <= i < a.len() ==> !holds_key(b, #[trigger] a[i]),
    ensures
        only_in(a, b) == a,
    decreases a.len(),
{
    if a.len() == 0 {
        reveal(Seq::filter);
        assert(only_in(a, b) =~= a);
    } else {
        let front = a.drop_last();
        assert(a =~= front.push(a.last()));
        assert forall|i: int| 0 <= i < front.len() implies !holds_key(b, #[trigger] front[i]) by {
            assert(front[i] == a[i]);
        }
        lemma_only_in_apart(front, b);
        lemma_only_in_push(front, a.last(), b);
    }
}

/// The keys only in `a` are the keys of `a` without the keys of `b`.
pub proof fn lemma_only_in_keys<E: SortKey>(a: Seq<E>, b: Seq<E>)
    ensures
        key_set(only_in(a, b)) == key_set(a).difference(key_set(b)),
    decreases a.len(),
{
    if a.len() == 0 {
        reveal(Seq::filter);
        assert(only_in(a, b) =~= a);
        assert(key_set(only_in(a, b)) =~= key_set(a).difference(key_set(b)));
    } else {
        let front = a.drop_last();
        let x = a.last();
        assert(a =~= front.push(x));
        lemma_only_in_keys(front, b);
        lemma_only_in_push(front, x, b);
        lemma_key_set_push(front, x);
        let kept = only_in(front, b);
        if holds_key(b, x) {
            let k = choose|k: int| 0 <= k < b.len() && #[trigger] b[k].rank() == x.rank();
            assert(key_set(b).contains(x.rank()));
        } else {
            lemma_key_set_push(kept, x);
            assert(!key_set(b).contains(x.rank()));
        }
        assert(key_set(only_in(a, b)) =~= key_set(a).difference(key_set(b)));
    }
}

/// Appending an element adds its key.
pub proof fn lemma_key_set_push<E: SortKey>(s: Seq<E>, x: E)
    ensures
        key_set(s.push(x)) == key_set(s).insert(x.rank()),
{
    let t = s.push(x);
    assert forall|r: Seq<int>| key_set(t).contains(r) <==> key_set(s).insert(x.rank()).contains(
        r,
    ) by {
        if key_set(t).contains(r) {
            let i = choose|i: int| 0 <= i < t.len() && #[trigger] t[i].rank() == r;
            if i < s.len() {
                assert(s[i].rank() == r);
            }
        }
        if key_set(s).contains(r) {
            let i = choose|i: int| 0 <= i < s.len() && #[trigger] s[i].rank() == r;
            assert(t[i].rank() == r);
        }
        if r == x.rank() {
            assert(t[s.len() as int].rank() == r);
        }
    }
    assert(key_set(t) =~= key_set(s).insert(x.rank()));
}

/// Every key of `a` or `b` is in exactly one of three sets: the keys only in
/// `a`, the keys in both, and the keys only in `b`.
pub proof fn lemma_difference_partitions<E: SortKey>(a: Seq<E>, b: Seq<E>)
    ensures
        ({
            let (first, second) = symmetric_difference(a, b);
            let both = key_set(a).intersect(key_set(b));
            &&& key_set(first).union(both).union(key_set(second)) == key_set(a).union(key_set(b))
            &&& key_set(first).disjoint(key_set(second))
            &&& key_set(first).disjoint(both)
            &&& key_set(second).disjoint(both)
        }),
{
    lemma_only_in_keys(a, b);
    lemma_only_in_keys(b, a);
    let (first, second) = symmetric_difference(a, b);
    let both = key_set(a).intersect(key_set(b));
    assert(key_set(first).union(both).union(key_set(second)) =~= key_set(a).union(key_set(b)));
}

/// With the two sequences exchanged, the two parts of the difference change places.
pub proof fn lemma_difference_swaps<E: SortKey>(a: Seq<E>, b: Seq<E>)
    ensures
        symmetric_difference(a, b) == (symmetric_difference(b, a).1, symmetric_difference(b, a).0),
{
}

/// A sequence differs from itself in nothing.
pub proof fn lemma_difference_with_self<E: SortKey>(a: Seq<E>)
    ensures
        symmetric_difference(a, a) == (Seq::<E>::empty(), Seq::<E>::empty()),
{
    assert forall|i: int| 0 <= i < a.len() implies holds_key(a, #[trigger] a[i]) by {
        assert(a[i].rank() == a[i].rank());
    }
    lemma_only_in_covered(a, a);
}

/// Against the empty sequence, the difference is the other sequence, on its own side.
pub proof fn lemma_difference_with_empty<E: SortKey>(s: Seq<E>)
    ensures
        symmetric_difference(Seq::<E>::empty(), s) == (Seq::<E>::empty(), s),
        symmetric_difference(s, Seq::<E>::empty()) == (s, Seq::<E>::empty()),
{
    let none = Seq::<E>::empty();
    lemma_only_in_apart(s, none);
    lemma_only_in_covered(none, s);
}

/// The difference as the merge finds it, head by head: the smaller of the
/// two heads is only in its sequence, and equal heads are in both.
pub open spec fn merged<E: SortKey>(a: Seq<E>, b: Seq<E>) -> (Seq<E>, Seq<E>)
    decreases a.len() + b.len(),
{
    if a.len() == 0 {
        (Seq::empty(), b)
    } else if b.len() == 0 {
        (a, Seq::empty())
    } else if lex_less(a[0].rank(), b[0].rank()) {
        (seq![a[0]] + merged(a.drop_first(), b).0, merged(a.drop_first(), b).1)
    } else if lex_less(b[0].rank(), a[0].rank()) {
        (merged(a, b.drop_first()).0, seq![b[0]] + merged(a, b.drop_first()).1)
    } else {
        merged(a.drop_first(), b.drop_first())
    }
}

/// What is only in `a` does not depend on the elements of `b` whose keys `a` lacks.
proof fn lemma_only_in_agrees<E: SortKey>(a: Seq<E>, b: Seq<E>, c: Seq<E>)
    requires
        forall|i: int| 0 <= i < a.len() ==> holds_key(b, #[trigger] a[i]) == holds_key(c, a[i]),
    ensures
        only_in(a, b) == only_in(a, c),
    decreases a.len(),
{
    reveal(Seq::filter);
    if a.len() > 0 {
        let front = a.drop_last();
        assert forall|i: int| 0 <= i < front.len() implies holds_key(b, #[trigger] front[i])
            == holds_key(c, front[i]) by {
            assert(front[i] == a[i]);
        }
        lemma_only_in_agrees(front, b, c);
        assert(holds_key(b, a[a.len() - 1]) == holds_key(c, a[a.len() - 1]));
    }
}

/// Without its head, a sorted sequence is sorted, and the head comes before all of it.
proof fn lemma_sorted_tail<E: SortKey>(s: Seq<E>)
    requires
        strictly_sorted(s),
        s.len() > 0,
    ensures
        strictly_sorted(s.drop_first()),
        forall|i: int|
            0 <= i < s.drop_first().len() ==> lex_less(
                s[0].rank(),
                #[trigger] s.drop_first()[i].rank(),
            ),
{
    let tail = s.drop_first();
    assert forall|i: int, j: int| 0 <= i < j < tail.len() implies lex_less(
        #[trigger] tail[i].rank(),
        #[trigger] tail[j].rank(),
    ) by {
        assert(tail[i] == s[i + 1] && tail[j] == s[j + 1]);
    }
    assert forall|i: int| 0 <= i < tail.len() implies lex_less(
        s[0].rank(),
        #[trigger] tail[i].rank(),
    ) by {
        assert(tail[i] == s[i + 1]);
    }
}

/// Where `x` comes before the head of the sorted `t`, `t` does not hold the
/// key of `x` or of anything before `x`.
proof fn lemma_before_head<E: SortKey>(x: E, t: Seq<E>, y: E)
    requires
        strictly_sorted(t),
        t.len() > 0,
        lex_less(x.rank(), t[0].rank()),
        y.rank() == x.rank() || lex_less(y.rank(), x.rank()),
    ensures
        !holds_key(t, y),
{
    if y.rank() != x.rank() {
        lemma_lex_transitive(y.rank(), x.rank(), t[0].rank());
    }
    assert forall|k: int| 0 <= k < t.len() implies #[trigger] t[k].rank() != y.rank() by {
        lemma_lex_irreflexive(y.rank());
        if k > 0 {
            lemma_lex_transitive(y.rank(), t[0].rank(), t[k].rank());
        }
    }
}

/// Whether `t` holds a key other than that of its head does not depend on the head.
proof fn lemma_holds_without_head<E: SortKey>(t: Seq<E>, y: E)
    requires
        t.len() > 0,
        t[0].rank() != y.rank(),
    ensures
        holds_key(t, y) == holds_key(t.drop_first(), y),
{
    let tail = t.drop_first();
    if holds_key(t, y) {
        let k = choose|k: int| 0 <= k < t.len() && #[trigger] t[k].rank() == y.rank();
        assert(tail[k - 1].rank() == y.rank());
    }
    if holds_key(tail, y) {
        let k = choose|k: int| 0 <= k < tail.len() && #[trigger] tail[k].rank() == y.rank();
        assert(t[k + 1].rank() == y.rank());
    }
}

/// The difference of two sorted sequences is what the merge finds.
pub proof fn lemma_difference_is_merged<E: SortKey>(a: Seq<E>, b: Seq<E>)
    requires
        strictly_sorted(a),
        strictly_sorted(b),
    ensures
        symmetric_difference(a, b) == merged(a, b),
    decreases a.len() + b.len(),
{
    if a.len() == 0 {
        assert(a =~= Seq::<E>::empty());
        lemma_difference_with_empty(b);
    } else if b.len() == 0 {
        assert(b =~= Seq::<E>::empty());
        lemma_difference_with_empty(a);
    } else {
        let x = a[0];
        let y = b[0];
        let ta = a.drop_first();
        let tb = b.drop_first();
        lemma_sorted_tail(a);
        lemma_sorted_tail(b);
        assert(a =~= seq![x] + ta);
        assert(b =~= seq![y] + tb);
        let in_b = |e: E| !holds_key(b, e);
        let in_a = |e: E| !holds_key(a, e);
        ta.lemma_filter_prepend(x, in_b);
        tb.lemma_filter_prepend(y, in_a);
        lemma_lex_connected(x.rank(), y.rank());
        if lex_less(x.rank(), y.rank()) {
            lemma_difference_is_merged(ta, b);
            lemma_before_head(x, b, x);
            assert forall|i: int| 0 <= i < b.len() implies holds_key(a, #[trigger] b[i])
                == holds_key(ta, b[i]) by {
                lemma_lex_irreflexive(x.rank());
                if i > 0 {
                    lemma_lex_transitive(x.rank(), y.rank(), b[i].rank());
                }
                lemma_holds_without_head(a, b[i]);
            }
            lemma_only_in_agrees(b, a, ta);
        } else if lex_less(y.rank(), x.rank()) {
            lemma_difference_is_merged(a, tb);
            lemma_before_head(y, a, y);
            assert forall|i: int| 0 <= i < a.len() implies holds_key(b, #[trigger] a[i])
                == holds_key(tb, a[i]) by {
                lemma_lex_irreflexive(y.rank());
                if i > 0 {
                    lemma_lex_transitive(y.rank(), x.rank(), a[i].rank());
                }
                lemma_holds_without_head(b, a[i]);
            }
            lemma_only_in_agrees(a, b, tb);
        } else {
            lemma_difference_is_merged(ta, tb);
            assert(b[0].rank() == x.rank());
            assert(holds_key(b, x));
            assert(a[0].rank() == y.rank());
            assert(holds_key(a, y));
            assert forall|i: int| 0 <= i < ta.len() implies holds_key(b, #[trigger] ta[i])
                == holds_key(tb, ta[i]) by {
                lemma_lex_irreflexive(x.rank());
                lemma_holds_without_head(b, ta[i]);
            }
            lemma_only_in_agrees(ta, b, tb);
            assert forall|i: int| 0 <= i < tb.len() implies holds_key(a, #[trigger] tb[i])
                == holds_key(ta, tb[i]) by {
                lemma_lex_irreflexive(y.rank());
                lemma_holds_without_head(a, tb[i]);
            }
            lemma_only_in_agrees(tb, a, ta);
            assert(Seq::<E>::empty() + only_in(ta, b) =~= only_in(ta, b));
            assert(Seq::<E>::empty() + only_in(tb, a) =~= only_in(tb, a));
        }
    }
}

} // verus!
