//! The order that keys are sorted by.
//!
//! Every key has a rank, a sequence of integers, and keys are ordered by
//! comparing their ranks lexicographically. For an integer the rank is the
//! integer itself; for a string it is the string's UTF-8 bytes, so that strings
//! are ordered as the standard library orders them.

use vstd::prelude::*;
use vstd::utf8::encode_utf8;

verus! {

/// Lexicographic order on sequences of integers: `a` comes strictly before `b`.
pub open spec fn lex_less(a: Seq<int>, b: Seq<int>) -> bool
    decreases a.len(),
{
    if b.len() == 0 {
        false
    } else if a.len() == 0 {
        true
    } else if a[0] != b[0] {
        a[0] < b[0]
    } else {
        lex_less(a.drop_first(), b.drop_first())
    }
}

/// No sequence comes before itself.
pub proof fn lemma_lex_irreflexive(a: Seq<int>)
    ensures
        !lex_less(a, a),
    decreases a.len(),
{
    if a.len() > 0 {
        lemma_lex_irreflexive(a.drop_first());
    }
}

/// The order is transitive.
pub proof fn lemma_lex_transitive(a: Seq<int>, b: Seq<int>, c: Seq<int>)
    requires
        lex_less(a, b),
        lex_less(b, c),
    ensures
        lex_less(a, c),
    decreases a.len(),
{
    if a.len() > 0 && a[0] == b[0] && b[0] == c[0] {
        lemma_lex_transitive(a.drop_first(), b.drop_first(), c.drop_first());
    }
}

/// Of two different sequences one comes before the other.
pub proof fn lemma_lex_connected(a: Seq<int>, b: Seq<int>)
    ensures
        a == b || lex_less(a, b) || lex_less(b, a),
    decreases a.len(),
{
    if a.len() == 0 || b.len() == 0 {
        if a.len() == 0 && b.len() == 0 {
            assert(a =~= b);
        }
    } else if a[0] == b[0] {
        lemma_lex_connected(a.drop_first(), b.drop_first());
        if a.drop_first() == b.drop_first() {
            assert(a =~= seq![a[0]] + a.drop_first());
            assert(b =~= seq![b[0]] + b.drop_first());
        }
    }
}

/// No two sequences come before each other.
pub proof fn lemma_lex_asymmetric(a: Seq<int>, b: Seq<int>)
    requires
        lex_less(a, b),
    ensures
        !lex_less(b, a),
{
    if lex_less(b, a) {
        lemma_lex_transitive(a, b, a);
        lemma_lex_irreflexive(a);
    }
}

/// On sequences of one integer the order is that of the integers.
pub proof fn lemma_lex_less_single(x: int, y: int)
    ensures
        lex_less(seq![x], seq![y]) == (x < y),
{
    reveal_with_fuel(lex_less, 2);
    let a = seq![x];
    let b = seq![y];
    assert(a[0] == x && b[0] == y);
    if x == y {
        assert(a.drop_first().len() == 0);
        assert(b.drop_first().len() == 0);
    }
}

/// A type whose values are totally ordered by a rank: a sequence of integers,
/// compared lexicographically. Two values with the same rank are the same key.
pub trait SortKey: Sized {
    /// The place of a value in the order.
    spec fn rank(&self) -> Seq<int>;

    /// Whether `self` comes strictly before `other`.
    fn precedes(&self, other: &Self) -> (b: bool)
        ensures
            b == lex_less(self.rank(), other.rank()),
    ;
}

/// The bytes of a string as integers.
pub open spec fn byte_rank(bytes: Seq<u8>) -> Seq<int> {
    bytes.map_values(|b: u8| b as int)
}

/// Whether the bytes `a` come strictly before the bytes `b` in lexicographic order.
pub fn bytes_precede(a: &[u8], b: &[u8]) -> (r: bool)
    ensures
        r == lex_less(byte_rank(a@), byte_rank(b@)),
{
    let ghost ra = byte_rank(a@);
    let ghost rb = byte_rank(b@);
    let mut i: usize = 0;
    proof {
        assert(ra.skip(0) =~= ra);
        assert(rb.skip(0) =~= rb);
    }
    while i < a.len() && i < b.len()
        invariant
            i <= a.len(),
            i <= b.len(),
            ra == byte_rank(a@),
            rb == byte_rank(b@),
            lex_less(ra, rb) == lex_less(ra.skip(i as int), rb.skip(i as int)),
        decreases a.len() - i,
    {
        proof {
            assert(ra.skip(i as int)[0] == a@[i as int] as int);
            assert(rb.skip(i as int)[0] == b@[i as int] as int);
            assert(ra.skip(i as int).drop_first() =~= ra.skip(i as int + 1));
            assert(rb.skip(i as int).drop_first() =~= rb.skip(i as int + 1));
        }
        if a[i] != b[i] {
            return a[i] < b[i];
        }
        i = i + 1;
    }
    proof {
        assert(ra.skip(i as int).len() == a.len() - i);
        assert(rb.skip(i as int).len() == b.len() - i);
    }
    i < b.len()
}

/// The rank of a text: the bytes of its UTF-8 encoding.
pub open spec fn text_rank(text: Seq<char>) -> Seq<int> {
    byte_rank(encode_utf8(text))
}

/// Two texts with the same rank are the same text.
pub proof fn lemma_text_rank_decides(a: Seq<char>, b: Seq<char>)
    requires
        text_rank(a) == text_rank(b),
    ensures
        a == b,
{
    let x = encode_utf8(a);
    let y = encode_utf8(b);
    assert(x =~= y) by {
        assert(byte_rank(x).len() == byte_rank(y).len());
        assert forall|i: int| 0 <= i < x.len() implies x[i] == y[i] by {
            assert(byte_rank(x)[i] == x[i] as int);
            assert(byte_rank(y)[i] == y[i] as int);
        }
    }
    vstd::utf8::encode_utf8_decode_utf8(a);
    vstd::utf8::encode_utf8_decode_utf8(b);
}

impl SortKey for String {
    open spec fn rank(&self) -> Seq<int> {
        text_rank(self@)
    }

    fn precedes(&self, other: &Self) -> (b: bool) {
        bytes_precede(self.as_str().as_bytes(), other.as_str().as_bytes())
    }
}

impl SortKey for u8 {
    open spec fn rank(&self) -> Seq<int> {
        seq![*self as int]
    }

    fn precedes(&self, other: &Self) -> (b: bool) {
        proof {
            lemma_lex_less_single(*self as int, *other as int);
        }
        *self < *other
    }
}

impl SortKey for u16 {
    open spec fn rank(&self) -> Seq<int> {
        seq![*self as int]
    }

    fn precedes(&self, other: &Self) -> (b: bool) {
        proof {
            lemma_lex_less_single(*self as int, *other as int);
        }
        *self < *other
    }
}

impl SortKey for u32 {
    open spec fn rank(&self) -> Seq<int> {
        seq![*self as int]
    }

    fn precedes(&self, other: &Self) -> (b: bool) {
        proof {
            lemma_lex_less_single(*self as int, *other as int);
        }
        *self < *other
    }
}

impl SortKey for u64 {
    open spec fn rank(&self) -> Seq<int> {
        seq![*self as int]
    }

    fn precedes(&self, other: &Self) -> (b: bool) {
        proof {
            lemma_lex_less_single(*self as int, *other as int);
        }
        *self < *other
    }
}

impl SortKey for u128 {
    open spec fn rank(&self) -> Seq<int> {
        seq![*self as int]
    }

    fn precedes(&self, other: &Self) -> (b: bool) {
        proof {
            lemma_lex_less_single(*self as int, *other as int);
        }
        *self < *other
    }
}

impl SortKey for usize {
    open spec fn rank(&self) -> Seq<int> {
        seq![*self as int]
    }

    fn precedes(&self, other: &Self) -> (b: bool) {
        proof {
            lemma_lex_less_single(*self as int, *other as int);
        }
        *self < *other
    }
}

impl SortKey for i8 {
    open spec fn rank(&self) -> Seq<int> {
        seq![*self as int]
    }

    fn precedes(&self, other: &Self) -> (b: bool) {
        proof {
            lemma_lex_less_single(*self as int, *other as int);
        }
        *self < *other
    }
}

impl SortKey for i16 {
    open spec fn rank(&self) -> Seq<int> {
        seq![*self as int]
    }

    fn precedes(&self, other: &Self) -> (b: bool) {
        proof {
            lemma_lex_less_single(*self as int, *other as int);
        }
        *self < *other
    }
}

impl SortKey for i32 {
    open spec fn rank(&self) -> Seq<int> {
        seq![*self as int]
    }

    fn precedes(&self, other: &Self) -> (b: bool) {
        proof {
            lemma_lex_less_single(*self as int, *other as int);
        }
        *self < *other
    }
}

impl SortKey for i64 {
    open spec fn rank(&self) -> Seq<int> {
        seq![*self as int]
    }

    fn precedes(&self, other: &Self) -> (b: bool) {
        proof {
            lemma_lex_less_single(*self as int, *other as int);
        }
        *self < *other
    }
}

impl SortKey for i128 {
    open spec fn rank(&self) -> Seq<int> {
        seq![*self as int]
    }

    fn precedes(&self, other: &Self) -> (b: bool) {
        proof {
            lemma_lex_less_single(*self as int, *other as int);
        }
        *self < *other
    }
}

impl SortKey for isize {
    open spec fn rank(&self) -> Seq<int> {
        seq![*self as int]
    }

    fn precedes(&self, other: &Self) -> (b: bool) {
        proof {
            lemma_lex_less_single(*self as int, *other as int);
        }
        *self < *other
    }
}

} // verus!
