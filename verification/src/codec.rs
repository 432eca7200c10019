//! From a published zone listing to the sorted set of its domain names.
//!
//! A listing is text, one domain to a line: the first word of the line is the
//! domain name, whatever follows it is ignored. A line that holds no word, or
//! that is not UTF-8, counts for nothing.

use std::io::Read;
use flate2::read::GzDecoder;
use vstd::prelude::*;
use vstd::slice::slice_subrange;
use vstd::string::StringExecFns;
use vstd::utf8::{decode_utf8, encode_utf8, valid_utf8};
use crate::order::{lemma_text_rank_decides, SortKey};
use crate::sorted::insert_sorted;
use crate::tools::{holds_key, strictly_sorted};

verus! {

/// Whether a byte is white space of ASCII: a blank, a tab, a line feed, a
/// form feed or a carriage return.
pub open spec fn is_space(b: u8) -> bool {
    b == 0x20 || b == 0x09 || b == 0x0a || b == 0x0c || b == 0x0d
}

/// What is left of a line after the white space at its start.
pub open spec fn skip_spaces(s: Seq<u8>) -> Seq<u8>
    decreases s.len(),
{
    if s.len() > 0 && is_space(s[0]) {
        skip_spaces(s.drop_first())
    } else {
        s
    }
}

/// The bytes at the start of `s` up to the first white space.
pub open spec fn take_word(s: Seq<u8>) -> Seq<u8>
    decreases s.len(),
{
    if s.len() == 0 || is_space(s[0]) {
        Seq::empty()
    } else {
        seq![s[0]] + take_word(s.drop_first())
    }
}

/// The first word of a line.
pub open spec fn first_token(line: Seq<u8>) -> Seq<u8> {
    take_word(skip_spaces(line))
}

/// The domain name that a line gives: its first word, if the line has one and
/// is text.
pub open spec fn domain_of_line(line: Seq<u8>) -> Option<Seq<char>> {
    let token = first_token(line);
    if token.len() > 0 && valid_utf8(line) && valid_utf8(token) {
        Some(decode_utf8(token))
    } else {
        None
    }
}

/// The number of bytes before the first line feed.
pub open spec fn line_len(data: Seq<u8>) -> nat
    decreases data.len(),
{
    if data.len() == 0 || data[0] == 0x0a {
        0
    } else {
        1 + line_len(data.drop_first())
    }
}

/// What follows the first line and its line feed.
pub open spec fn after_line(data: Seq<u8>) -> Seq<u8> {
    if line_len(data) < data.len() {
        data.skip(line_len(data) as int + 1)
    } else {
        Seq::empty()
    }
}

/// The domain names of a listing, line by line.
pub open spec fn listing_domains(data: Seq<u8>) -> Seq<Seq<char>>
    decreases data.len(),
{
    if data.len() == 0 {
        Seq::empty()
    } else {
        match domain_of_line(data.take(line_len(data) as int)) {
            Some(domain) => seq![domain] + listing_domains(after_line(data)),
            None => listing_domains(after_line(data)),
        }
    }
}

/// The texts of some strings.
pub open spec fn texts(names: Seq<String>) -> Seq<Seq<char>> {
    names.map_values(|s: String| s@)
}

/// The bytes that a gzip archive unpacks to, if it can be unpacked.
pub uninterp spec fn unpacked(archive: Seq<u8>) -> Option<Seq<u8>>;

/// Reads a gzip archive to its end with `flate2::read::GzDecoder`. Trusted:
/// the result is what `unpacked` names, the unpacked bytes of the archive's
/// first member, or `None` where the decoder reports an error.
#[verifier::external_body]
fn gunzip(archive: &[u8]) -> (data: Option<Vec<u8>>)
    ensures
        (match data {
            Some(d) => Some(d@),
            None => None,
        }) == unpacked(archive@),
{
    let mut data = Vec::new();
    match GzDecoder::new(archive).read_to_end(&mut data) {
        Ok(_) => Some(data),
        Err(_) => None,
    }
}

/// Calls `std::str::from_utf8`. Trusted: the bytes are accepted exactly where
/// they are valid UTF-8, and the string then has those bytes.
#[verifier::external_body]
fn utf8_text(bytes: &[u8]) -> (text: Option<&str>)
    ensures
        text is Some <==> valid_utf8(bytes@),
        text matches Some(s) ==> encode_utf8(s@) == bytes@,
{
    std::str::from_utf8(bytes).ok()
}

/// Whether a byte is white space of ASCII.
pub fn byte_is_space(b: u8) -> (r: bool)
    ensures
        r == is_space(b),
{
    b == 0x20 || b == 0x09 || b == 0x0a || b == 0x0c || b == 0x0d
}

/// Where the first word of a line starts and where it ends.
pub fn token_bounds(line: &[u8]) -> (bounds: (usize, usize))
    ensures
        bounds.0 <= bounds.1 <= line.len(),
        line@.subrange(bounds.0 as int, bounds.1 as int) == first_token(line@),
{
    let mut start: usize = 0;
    proof {
        assert(line@.skip(0) =~= line@);
    }
    while start < line.len() && byte_is_space(line[start])
        invariant
            start <= line.len(),
            skip_spaces(line@) == skip_spaces(line@.skip(start as int)),
        decreases line.len() - start,
    {
        proof {
            assert(line@.skip(start as int).drop_first() =~= line@.skip(start as int + 1));
        }
        start = start + 1;
    }
    let mut end: usize = start;
    proof {
        assert(line@.subrange(start as int, start as int) =~= Seq::<u8>::empty());
    }
    while end < line.len() && !byte_is_space(line[end])
        invariant
            start <= end <= line.len(),
            take_word(line@.skip(start as int)) == line@.subrange(start as int, end as int)
                + take_word(line@.skip(end as int)),
        decreases line.len() - end,
    {
        proof {
            assert(line@.skip(end as int).drop_first() =~= line@.skip(end as int + 1));
            assert(line@.subrange(start as int, end as int) + (seq![line@[end as int]] + take_word(
                line@.skip(end as int + 1),
            )) =~= line@.subrange(start as int, end as int + 1) + take_word(
                line@.skip(end as int + 1),
            ));
        }
        end = end + 1;
    }
    proof {
        assert(take_word(line@.skip(end as int)) =~= Seq::<u8>::empty());
        assert(line@.subrange(start as int, end as int) + Seq::<u8>::empty() =~= line@.subrange(
            start as int,
            end as int,
        ));
    }
    (start, end)
}

/// The domain name that a line gives.
pub fn line_domain(line: &[u8]) -> (domain: Option<String>)
    ensures
        crate::site::text_of(domain) == domain_of_line(line@),
{
    let (start, end) = token_bounds(line);
    if start == end {
        return None;
    }
    if utf8_text(line).is_none() {
        return None;
    }
    match utf8_text(slice_subrange(line, start, end)) {
        Some(word) => {
            proof {
                vstd::utf8::encode_utf8_decode_utf8(word@);
            }
            Some(String::from_str(word))
        },
        None => None,
    }
}

/// The domain names of a listing, in the order of its lines.
pub fn extract_domains(data: &[u8]) -> (domains: Vec<String>)
    ensures
        texts(domains@) == listing_domains(data@),
{
    let mut domains: Vec<String> = Vec::new();
    let mut pos: usize = 0;
    proof {
        assert(data@.skip(0) =~= data@);
        assert(texts(domains@) =~= Seq::<Seq<char>>::empty());
        assert(Seq::<Seq<char>>::empty() + listing_domains(data@) =~= listing_domains(data@));
    }
    while pos < data.len()
        invariant
            pos <= data.len(),
            listing_domains(data@) == texts(domains@) + listing_domains(data@.skip(pos as int)),
        decreases data.len() - pos,
    {
        let ghost rest = data@.skip(pos as int);
        let mut end: usize = pos;
        while end < data.len() && data[end] != 0x0a
            invariant
                pos <= end <= data.len(),
                rest == data@.skip(pos as int),
                line_len(rest) == (end - pos) + line_len(data@.skip(end as int)),
            decreases data.len() - end,
        {
            proof {
                assert(data@.skip(end as int).drop_first() =~= data@.skip(end as int + 1));
            }
            end = end + 1;
        }
        proof {
            assert(line_len(data@.skip(end as int)) == 0);
            assert(rest.take(line_len(rest) as int) =~= data@.subrange(pos as int, end as int));
        }
        let found = line_domain(slice_subrange(data, pos, end));
        let next: usize = if end < data.len() {
            end + 1
        } else {
            end
        };
        proof {
            assert(after_line(rest) =~= data@.skip(next as int));
            let before = texts(domains@);
            match &found {
                Some(d) => {
                    assert(texts(domains@.push(*d)) =~= before + seq![d@]);
                    assert(before + (seq![d@] + listing_domains(data@.skip(next as int))) =~= (
                    before + seq![d@]) + listing_domains(data@.skip(next as int)));
                },
                None => {},
            }
        }
        if let Some(d) = found {
            domains.push(d);
        }
        pos = next;
    }
    proof {
        assert(texts(domains@) + Seq::<Seq<char>>::empty() =~= texts(domains@));
    }
    domains
}

/// The domain names of a listing that was packed with gzip, in the order of
/// its lines, or `None` where the archive cannot be unpacked.
pub fn extract_archive(archive: &[u8]) -> (domains: Option<Vec<String>>)
    ensures
        match domains {
            Some(found) => unpacked(archive@) is Some && texts(found@) == listing_domains(
                unpacked(archive@)->0,
            ),
            None => unpacked(archive@) is None,
        },
{
    match gunzip(archive) {
        Some(data) => Some(extract_domains(data.as_slice())),
        None => None,
    }
}

/// A sequence of strings holds a key exactly where it holds the key's text.
pub proof fn lemma_key_is_text(names: Seq<String>, x: String)
    ensures
        holds_key(names, x) <==> texts(names).contains(x@),
{
    if holds_key(names, x) {
        let i = choose|i: int| 0 <= i < names.len() && #[trigger] names[i].rank() == x.rank();
        lemma_text_rank_decides(names[i]@, x@);
        assert(texts(names)[i] == x@);
    }
    if texts(names).contains(x@) {
        let i = choose|i: int| 0 <= i < texts(names).len() && texts(names)[i] == x@;
        assert(names[i].rank() == x.rank());
    }
}

/// The domain names of one publication of a zone: sorted, each name once.
pub struct ZoneSnapshot {
    domains: Vec<String>,
}

impl ZoneSnapshot {
    #[verifier::type_invariant]
    spec fn sorted(&self) -> bool {
        strictly_sorted(self.domains@)
    }

    /// The names that the snapshot holds, in order.
    pub closed spec fn names(&self) -> Seq<String> {
        self.domains@
    }

    /// The snapshot of the given names: sorted, and with each name once.
    /// Names that come in order are appended one after the other; a name
    /// that comes out of order is put at its place.
    pub fn from_domains(domains: Vec<String>) -> (snapshot: ZoneSnapshot)
        ensures
            strictly_sorted(snapshot.names()),
            texts(snapshot.names()).to_set() == texts(domains@).to_set(),
    {
        broadcast use vstd::std_specs::vec::axiom_spec_into_iter;
        let ghost all = domains@;
        let mut sorted: Vec<String> = Vec::new();
        proof {
            assert(texts(sorted@).to_set() =~= texts(all.take(0)).to_set());
        }
        for name in it: domains
            invariant
                it.seq() == all,
                strictly_sorted(sorted@),
                texts(sorted@).to_set() == texts(all.take(it.index())).to_set(),
        {
            let ghost before = sorted@;
            let added = insert_sorted(&mut sorted, name);
            proof {
                let k = it.index();
                lemma_key_is_text(before, name);
                assert(all.take(k + 1) =~= all.take(k).push(name));
                assert(texts(all.take(k + 1)) =~= texts(all.take(k)).push(name@));
                assert(texts(all.take(k)).push(name@).to_set() =~= texts(all.take(k)).to_set().insert(
                    name@,
                )) by {
                    lemma_push_to_set(texts(all.take(k)), name@);
                }
                if added {
                    let p = choose|p: int|
                        crate::sorted::is_place(before, name, p) && sorted@ == before.insert(
                            p,
                            name,
                        );
                    assert(texts(sorted@) =~= texts(before).insert(p, name@));
                    lemma_insert_to_set(texts(before), p, name@);
                } else {
                    assert(texts(before).to_set().contains(name@));
                    assert(texts(before).to_set().insert(name@) =~= texts(before).to_set());
                }
            }
        }
        proof {
            assert(all.take(all.len() as int) =~= all);
        }
        ZoneSnapshot { domains: sorted }
    }

    /// The snapshot of a listing: the domain names of its lines.
    pub fn from_listing(data: &[u8]) -> (snapshot: ZoneSnapshot)
        ensures
            strictly_sorted(snapshot.names()),
            texts(snapshot.names()).to_set() == listing_domains(data@).to_set(),
    {
        ZoneSnapshot::from_domains(extract_domains(data))
    }

    /// The snapshot of a listing that was packed with gzip, or `None` where
    /// the archive cannot be unpacked.
    pub fn from_archive(archive: &[u8]) -> (snapshot: Option<ZoneSnapshot>)
        ensures
            snapshot is Some <==> unpacked(archive@) is Some,
            snapshot matches Some(s) ==> strictly_sorted(s.names()) && texts(s.names()).to_set()
                == listing_domains(unpacked(archive@)->0).to_set(),
    {
        match gunzip(archive) {
            Some(data) => Some(ZoneSnapshot::from_listing(data.as_slice())),
            None => None,
        }
    }

    /// The number of names.
    pub fn len(&self) -> (n: usize)
        ensures
            n == self.names().len(),
    {
        self.domains.len()
    }

    /// The names, in order.
    pub fn as_vec(&self) -> (names: &Vec<String>)
        ensures
            names@ == self.names(),
            strictly_sorted(names@),
    {
        proof {
            use_type_invariant(self);
        }
        &self.domains
    }

    /// The names, in order.
    pub fn into_vec(self) -> (names: Vec<String>)
        ensures
            names@ == self.names(),
            strictly_sorted(names@),
    {
        proof {
            use_type_invariant(&self);
        }
        self.domains
    }
}

/// Appending an element adds it to the set of elements.
pub proof fn lemma_push_to_set<A>(s: Seq<A>, x: A)
    ensures
        s.push(x).to_set() == s.to_set().insert(x),
{
    let t = s.push(x);
    assert forall|y: A| t.to_set().contains(y) <==> s.to_set().insert(x).contains(y) by {
        if t.to_set().contains(y) {
            let i = choose|i: int| 0 <= i < t.len() && t[i] == y;
            if i < s.len() {
                assert(s[i] == y);
                assert(s.contains(y));
            }
        }
        if s.to_set().contains(y) {
            let i = choose|i: int| 0 <= i < s.len() && s[i] == y;
            assert(t[i] == y);
            assert(t.contains(y));
        }
        if y == x {
            assert(t[s.len() as int] == y);
            assert(t.contains(y));
        }
    }
    assert(t.to_set() =~= s.to_set().insert(x));
}

/// Inserting an element anywhere adds it to the set of elements.
pub proof fn lemma_insert_to_set<A>(s: Seq<A>, p: int, x: A)
    requires
        0 <= p <= s.len(),
    ensures
        s.insert(p, x).to_set() == s.to_set().insert(x),
{
    let t = s.insert(p, x);
    assert forall|y: A| t.to_set().contains(y) <==> s.to_set().insert(x).contains(y) by {
        if t.to_set().contains(y) {
            let i = choose|i: int| 0 <= i < t.len() && t[i] == y;
            if i < p {
                assert(s[i] == y);
                assert(s.contains(y));
            } else if i > p {
                assert(s[i - 1] == y);
                assert(s.contains(y));
            }
        }
        if s.to_set().contains(y) {
            let i = choose|i: int| 0 <= i < s.len() && s[i] == y;
            if i < p {
                assert(t[i] == y);
            } else {
                assert(t[i + 1] == y);
            }
            assert(t.contains(y));
        }
        if y == x {
            assert(t[p] == y);
            assert(t.contains(y));
        }
    }
    assert(t.to_set() =~= s.to_set().insert(x));
}

} // verus!
