//! Vectors that are kept strictly sorted by the keys of their elements.

use vstd::prelude::*;
use crate::order::{lemma_lex_asymmetric, lemma_lex_connected, lemma_lex_irreflexive,
    lemma_lex_transitive, lex_less, SortKey};
use crate::tools::{holds_key, strictly_sorted};

verus! {

/// Whether a vector is strictly sorted: in order, with no key twice.
pub fn is_strictly_sorted<E: SortKey>(v: &Vec<E>) -> (sorted: bool)
    ensures
        sorted == strictly_sorted(v@),
{
    if v.len() < 2 {
        return true;
    }
    let mut i: usize = 1;
    while i < v.len()
        invariant
            1 <= i <= v.len(),
            forall|a: int, b: int|
                0 <= a < b < i ==> lex_less(#[trigger] v@[a].rank(), #[trigger] v@[b].rank()),
        decreases v.len() - i,
    {
        if !v[i - 1].precedes(&v[i]) {
            return false;
        }
        proof {
            assert forall|a: int, b: int| 0 <= a < b < i + 1 implies lex_less(
                #[trigger] v@[a].rank(),
                #[trigger] v@[b].rank(),
            ) by {
                if b == i && a < i - 1 {
                    lemma_lex_transitive(v@[a].rank(), v@[i - 1].rank(), v@[i as int].rank());
                }
            }
        }
        i = i + 1;
    }
    true
}

/// The place of a key in a sorted sequence: every element before `p` comes
/// before the key, and no element from `p` on does.
pub open spec fn is_place<E: SortKey>(s: Seq<E>, key: E, p: int) -> bool {
    &&& 0 <= p <= s.len()
    &&& forall|i: int| 0 <= i < p ==> lex_less(#[trigger] s[i].rank(), key.rank())
    &&& forall|i: int| p <= i < s.len() ==> !lex_less(#[trigger] s[i].rank(), key.rank())
}

/// In a sorted sequence, the key is held if and only if it is held at its place.
pub proof fn lemma_place_decides<E: SortKey>(s: Seq<E>, key: E, p: int)
    requires
        strictly_sorted(s),
        is_place(s, key, p),
    ensures
        holds_key(s, key) <==> (p < s.len() && s[p].rank() == key.rank()),
{
    if holds_key(s, key) {
        let i = choose|i: int| 0 <= i < s.len() && #[trigger] s[i].rank() == key.rank();
        lemma_lex_irreflexive(key.rank());
        if i > p {
            lemma_lex_connected(s[p].rank(), key.rank());
            if lex_less(key.rank(), s[p].rank()) {
                lemma_lex_asymmetric(key.rank(), s[p].rank());
            }
        }
    }
}

/// Finds the place of a key in a sorted vector by halving the range that can hold it.
pub fn lower_bound<E: SortKey>(v: &Vec<E>, key: &E) -> (p: usize)
    requires
        strictly_sorted(v@),
    ensures
        is_place(v@, *key, p as int),
{
    let mut low: usize = 0;
    let mut high: usize = v.len();
    while low < high
        invariant
            strictly_sorted(v@),
            0 <= low <= high <= v.len(),
            forall|i: int| 0 <= i < low ==> lex_less(#[trigger] v@[i].rank(), key.rank()),
            forall|i: int| high <= i < v.len() ==> !lex_less(#[trigger] v@[i].rank(), key.rank()),
        decreases high - low,
    {
        let mid = low + (high - low) / 2;
        if v[mid].precedes(key) {
            proof {
                assert forall|i: int| 0 <= i < mid + 1 implies lex_less(
                    #[trigger] v@[i].rank(),
                    key.rank(),
                ) by {
                    if i < mid {
                        lemma_lex_transitive(v@[i].rank(), v@[mid as int].rank(), key.rank());
                    }
                }
            }
            low = mid + 1;
        } else {
            proof {
                assert forall|i: int| mid <= i < v.len() implies !lex_less(
                    #[trigger] v@[i].rank(),
                    key.rank(),
                ) by {
                    if i > mid && lex_less(v@[i].rank(), key.rank()) {
                        lemma_lex_transitive(v@[mid as int].rank(), v@[i].rank(), key.rank());
                    }
                }
            }
            high = mid;
        }
    }
    low
}

/// Putting a new key at its place keeps a sorted sequence sorted.
pub proof fn lemma_insert_keeps_sorted<E: SortKey>(s: Seq<E>, x: E, p: int)
    requires
        strictly_sorted(s),
        is_place(s, x, p),
        !holds_key(s, x),
    ensures
        strictly_sorted(s.insert(p, x)),
{
    let t = s.insert(p, x);
    assert forall|i: int, j: int| 0 <= i < j < t.len() implies lex_less(
        #[trigger] t[i].rank(),
        #[trigger] t[j].rank(),
    ) by {
        if j < p {
            assert(t[i] == s[i] && t[j] == s[j]);
        } else if j == p {
            assert(t[i] == s[i]);
        } else if i == p {
            assert(t[j] == s[j - 1]);
            lemma_lex_connected(s[j - 1].rank(), x.rank());
        } else if i < p {
            assert(t[i] == s[i] && t[j] == s[j - 1]);
        } else {
            assert(t[i] == s[i - 1] && t[j] == s[j - 1]);
        }
    }
}

/// Puts an element at its place in a sorted vector, unless the vector holds
/// its key already. Says whether the element went in.
pub fn insert_sorted<E: SortKey>(v: &mut Vec<E>, x: E) -> (added: bool)
    requires
        strictly_sorted(old(v)@),
    ensures
        strictly_sorted(final(v)@),
        added == !holds_key(old(v)@, x),
        added ==> exists|p: int| is_place(old(v)@, x, p) && final(v)@ == old(v)@.insert(p, x),
        !added ==> final(v)@ == old(v)@,
{
    let p = lower_bound(v, &x);
    proof {
        lemma_place_decides(v@, x, p as int);
    }
    if p < v.len() {
        let same = !x.precedes(&v[p]);
        proof {
            lemma_lex_connected(v@[p as int].rank(), x.rank());
            lemma_lex_irreflexive(x.rank());
        }
        if same {
            return false;
        }
    }
    proof {
        lemma_insert_keeps_sorted(v@, x, p as int);
    }
    v.insert(p, x);
    true
}

/// Whether a sorted vector holds a key.
pub fn contains_sorted<E: SortKey>(v: &Vec<E>, key: &E) -> (held: bool)
    requires
        strictly_sorted(v@),
    ensures
        held == holds_key(v@, *key),
{
    let p = lower_bound(v, key);
    proof {
        lemma_place_decides(v@, *key, p as int);
    }
    if p < v.len() {
        let same = !key.precedes(&v[p]);
        proof {
            lemma_lex_connected(v@[p as int].rank(), key.rank());
            lemma_lex_irreflexive(key.rank());
        }
        same
    } else {
        false
    }
}

} // verus!
